use zkml::curve::G1;
use zkml::field::Fr;

fn le_bytes(decimal: &str) -> [u8; 32] {
    // decimal text to 32 little-endian bytes
    let mut bytes = [0u8; 32];
    for digit in decimal.bytes() {
        let mut carry = (digit - b'0') as u32;
        for b in bytes.iter_mut() {
            let v = (*b as u32) * 10 + carry;
            *b = (v & 0xff) as u8;
            carry = v >> 8;
        }
    }
    bytes
}

fn two_g() -> G1 {
    G1::from_xy(
        le_bytes("1368015179489954701390400359078579693043519447331113978918064868415326638035"),
        le_bytes("9918110051302171585080402603319702774565515993150576347155970296011118125764"),
    )
    .unwrap()
}

fn three_g() -> G1 {
    G1::from_xy(
        le_bytes("3353031288059533942658390886683067124040920775575537747144343083137631628272"),
        le_bytes("19321533766552368860946552437480515441416830039777911637913418824951667761761"),
    )
    .unwrap()
}

#[test]
fn generator_and_identity() {
    let g = G1::generator();
    let (x, y) = g.to_xy();
    assert_eq!(x, le_bytes("1"));
    assert_eq!(y, le_bytes("2"));
    assert!(!g.is_identity());
    assert!(G1::identity().is_identity());
    assert_eq!(G1::identity().to_xy(), ([0u8; 32], [0u8; 32]));
    assert_eq!(G1::from_xy(x, y), Some(g));
    assert_eq!(G1::from_xy([0u8; 32], [0u8; 32]), Some(G1::identity()));
}

#[test]
fn points_off_the_curve_are_refused() {
    assert_eq!(G1::from_xy(le_bytes("1"), le_bytes("3")), None);
    assert_eq!(G1::from_xy(le_bytes("0"), le_bytes("1")), None);
    // the base field's modulus is no coordinate
    let q = "21888242871839275222246405745257275088696311157297823662689037894645226208583";
    assert_eq!(G1::from_xy(le_bytes(q), le_bytes("2")), None);
    assert_eq!(G1::from_xy(le_bytes("1"), [0xff; 32]), None);
    // minus the generator is on the curve
    let minus_two = "21888242871839275222246405745257275088696311157297823662689037894645226208581";
    assert!(G1::from_xy(le_bytes("1"), le_bytes(minus_two)).is_some());
}

#[test]
fn addition_and_doubling() {
    let g = G1::generator();
    assert_eq!(g.double(), two_g());
    assert_eq!(g.add(&g), two_g());
    assert_eq!(g.add(&two_g()), three_g());
    assert_eq!(two_g().add(&g), three_g());
    assert_eq!(g.add(&G1::identity()), g);
    assert_eq!(G1::identity().add(&g), g);
    assert_eq!(G1::identity().double(), G1::identity());
    let minus_two = "21888242871839275222246405745257275088696311157297823662689037894645226208581";
    let minus_g = G1::from_xy(le_bytes("1"), le_bytes(minus_two)).unwrap();
    assert_eq!(g.add(&minus_g), G1::identity());
}

#[test]
fn subtraction_and_scaling() {
    let g = G1::generator();
    assert_eq!(three_g().sub(&g), two_g());
    assert_eq!(g.sub(&g), G1::identity());
    assert_eq!(three_g().sub(&G1::identity()), three_g());
    assert_eq!(g.mul(&Fr::from_u64(3)), three_g());
    assert_eq!(g.mul(&Fr::from_u64(2)), two_g());
    assert_eq!(g.mul(&Fr::one()), g);
    assert_eq!(g.mul(&Fr::zero()), G1::identity());
    assert_eq!(G1::identity().mul(&Fr::from_u64(5)), G1::identity());
    // the group has the order of the scalar field
    let minus_one = Fr::one().neg();
    assert_eq!(g.mul(&minus_one).add(&g), G1::identity());
}
