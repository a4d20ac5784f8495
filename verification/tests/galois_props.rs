//! Field arithmetic: table construction and the field laws on values.

use raid::galois;
use raid::raid::RAID;

fn tables() -> galois::GfTables {
    galois::gf_build_tables().expect("the field tables must build")
}

#[test]
fn tables_build() {
    let t = tables();
    // the generator chain starts at one
    assert_eq!(galois::exp(&t, 2, 0), 1);
    assert_eq!(galois::exp(&t, 2, 1), 2);
    // x^8 reduces to x^4 + x^3 + x^2 + 1 under the primitive polynomial
    assert_eq!(galois::exp(&t, 2, 8), 0x1d);
}

#[test]
fn add_laws_hold_on_values() {
    for a in 0..=255u8 {
        assert_eq!(galois::add(a, 0), a);
        assert_eq!(galois::add(a, a), 0);
        assert_eq!(galois::sub(a, a), 0);
        assert_eq!(galois::add(a, 17), galois::add(17, a));
    }
}

#[test]
fn mul_laws_hold_on_values() {
    let t = tables();
    let samples: [u8; 6] = [0, 1, 2, 7, 130, 255];
    for &a in samples.iter() {
        assert_eq!(galois::mul(&t, a, 1), a);
        assert_eq!(galois::mul(&t, a, 0), 0);
        for &b in samples.iter() {
            assert_eq!(galois::mul(&t, a, b), galois::mul(&t, b, a));
            for &c in samples.iter() {
                // associativity and distributivity
                assert_eq!(
                    galois::mul(&t, galois::mul(&t, a, b), c),
                    galois::mul(&t, a, galois::mul(&t, b, c))
                );
                assert_eq!(
                    galois::mul(&t, a, galois::add(b, c)),
                    galois::add(galois::mul(&t, a, b), galois::mul(&t, a, c))
                );
            }
            if b != 0 {
                // (a*b)/b == a
                assert_eq!(galois::div(&t, galois::mul(&t, a, b), b), a);
            }
        }
    }
}

#[test]
fn pow_is_repeated_multiplication() {
    let t = tables();
    let g = galois::Galois::new(3);
    let mut acc: u8 = 1;
    for n in 0..10usize {
        assert_eq!(g.pow(&t, n).0, acc);
        acc = galois::mul(&t, acc, 3);
    }
    assert_eq!(galois::exp(&t, 0, 0), 1);
    assert_eq!(galois::exp(&t, 0, 5), 0);
}

#[test]
fn matrix_products_agree_row_by_row() {
    let t = tables();
    let v = raid::matrix::Matrix::reed_solomon(&t, 2, 3).unwrap();
    let data = vec![vec![1, 2, 3, 4], vec![5, 6, 7, 8], vec![9, 10, 11, 12]];
    let all = v.mul_vec(&t, &data, 4);
    assert_eq!(all.len(), 2);
    for k in 0..2usize {
        assert_eq!(all[k], v.mul_vec_at(&t, &data, k, 4));
    }
}

#[test]
fn engine_parity_is_the_matrix_product() {
    // the stored parity chunks are exactly the parity matrix applied to
    // the data chunks
    let t = tables();
    let v = raid::matrix::Matrix::reed_solomon(&t, 2, 3).unwrap();
    let data = vec![vec![1, 2], vec![3, 4], vec![5, 6]];
    let want = v.mul_vec(&t, &data, 2);

    let mut e = raid::raid::controller::Controller::new(3, 2, 2).unwrap();
    e.add_data(&data, 0);
    assert_eq!(e.read_checksum(0), want);
}
