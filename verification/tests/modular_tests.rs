//! The modular ring: construction, residues, the ring operations against
//! plain integer arithmetic, and exponentiation.

use ibig::modular::ModuloRing;
use ibig::ubig::UBig;

fn ubig(x: u64) -> UBig {
    UBig::from_word(x)
}

#[test]
fn test_ring_sub_scenario() {
    let ring = ModuloRing::new(&ubig(10000));
    let x = ring.from(12345u64);
    let y = ring.from(55443u64);
    assert_eq!(x.sub_mod(&y).residue(), ubig(6902));
}

#[test]
fn test_element_equality() {
    let ring = ModuloRing::new(&ubig(100));
    let x = ring.from(-1234i64);
    let y = ring.from(3366u64);
    assert!(x == y);
    let z = ring.from(67u64);
    assert!(x != z);
}

#[test]
fn test_ring_modulus() {
    let ring = ModuloRing::new(&ubig(100));
    assert_eq!(ring.modulus(), ubig(100));
    let big = ubig(u64::MAX).mul_ubig(&ubig(12345)).add_ubig(&ubig(678));
    let ring2 = ModuloRing::new(&big);
    assert_eq!(ring2.modulus(), big);
}

#[test]
fn test_ring_from_negative() {
    let ring = ModuloRing::new(&ubig(100));
    let x = ring.from(-1234i64);
    assert_eq!(x.residue(), ubig(66));
}

#[test]
fn test_ring_ops_small() {
    let m: u64 = 10007;
    let ring = ModuloRing::new(&ubig(m));
    let a: u64 = 123456;
    let b: u64 = 789012;
    let x = ring.from(a);
    let y = ring.from(b);
    assert_eq!(x.add_mod(&y).residue(), ubig((a + b) % m));
    assert_eq!(x.mul_mod(&y).residue(), ubig((a % m) * (b % m) % m));
    assert_eq!(x.neg_mod().residue(), ubig((m - a % m) % m));
    assert_eq!(x.sub_mod(&y).residue(), ubig(((a % m) + m - b % m) % m));
}

#[test]
fn test_ring_ops_large() {
    // a modulus of several words
    let m = ubig(u64::MAX).mul_ubig(&ubig(u64::MAX)).add_ubig(&ubig(17));
    let ring = ModuloRing::new(&m);
    let a = ubig(3).pow(120);
    let b = ubig(7).pow(99);
    let x = ring.from(&a);
    let y = ring.from(&b);
    assert_eq!(x.add_mod(&y).residue(), a.add_ubig(&b).rem_ubig(&m));
    assert_eq!(
        x.mul_mod(&y).residue(),
        a.rem_ubig(&m).mul_ubig(&b.rem_ubig(&m)).rem_ubig(&m)
    );
    assert_eq!(
        x.sub_mod(&y).residue(),
        a.rem_ubig(&m).add_ubig(&m).sub_ubig(&b.rem_ubig(&m)).rem_ubig(&m)
    );
}

#[test]
fn test_ring_square() {
    let ring = ModuloRing::new(&ubig(10007));
    let x = ring.from(5000u64);
    assert_eq!(x.square_mod().residue(), ubig(5000 * 5000 % 10007));
}

#[test]
fn test_ring_pow() {
    let ring = ModuloRing::new(&ubig(1_000_000_007));
    let x = ring.from(3u64);
    assert_eq!(x.pow_mod(&ubig(5)).residue(), ubig(243));
    // 3^45 mod p computed against the plain power
    let direct = ubig(3).pow(45).rem_ubig(&ubig(1_000_000_007));
    assert_eq!(x.pow_mod(&ubig(45)).residue(), direct);
    assert_eq!(x.pow_mod(&ubig(0)).residue(), ubig(1));
}

#[test]
fn test_ring_homomorphism_samples() {
    let m: u64 = 97;
    let ring = ModuloRing::new(&ubig(m));
    for a in [0u64, 1, 96, 97, 500, 12345] {
        for b in [0u64, 5, 96, 98, 7777] {
            let x = ring.from(a);
            let y = ring.from(b);
            assert_eq!(x.add_mod(&y).residue(), ubig((a + b) % m));
            assert_eq!(x.mul_mod(&y).residue(), ubig((a * b) % m));
        }
    }
}
