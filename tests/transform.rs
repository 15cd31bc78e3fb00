use render_tiles::shapes::{ConstraintH, ConstraintV, Group, Type};
use render_tiles::transform::{Affine, TransformEntry};
use uuid::Uuid;

fn affine_of(m: [f32; 6]) -> Affine {
    Affine {
        a: m[0].to_bits(),
        b: m[1].to_bits(),
        c: m[2].to_bits(),
        d: m[3].to_bits(),
        e: m[4].to_bits(),
        f: m[5].to_bits(),
    }
}

#[test]
fn test_serialization() {
    let id = Uuid::parse_str("550e8400-e29b-41d4-a716-446655440000").unwrap();
    // scale_x 1, skew_x 2, trans_x 3, skew_y 4, scale_y 5, trans_y 6
    let entry = TransformEntry {
        id: id.as_u128(),
        transform: affine_of([1.0, 4.0, 2.0, 5.0, 3.0, 6.0]),
    };

    let bytes = entry.as_bytes();

    assert_eq!(entry, TransformEntry::from_bytes(bytes));
}

#[test]
fn encoding_layout_is_fixed() {
    let entry = TransformEntry::new(
        0x00112233_44556677_8899aabb_ccddeeff,
        Affine { a: 0x01020304, b: 5, c: 6, d: 7, e: 8, f: 0xffffffff },
    );
    let bytes = entry.as_bytes();
    assert_eq!(&bytes[0..4], &[0x33, 0x22, 0x11, 0x00]);
    assert_eq!(&bytes[4..8], &[0x77, 0x66, 0x55, 0x44]);
    assert_eq!(&bytes[8..12], &[0xbb, 0xaa, 0x99, 0x88]);
    assert_eq!(&bytes[12..16], &[0xff, 0xee, 0xdd, 0xcc]);
    assert_eq!(&bytes[16..20], &[0x04, 0x03, 0x02, 0x01]);
    assert_eq!(&bytes[20..24], &[5, 0, 0, 0]);
    assert_eq!(&bytes[24..28], &[6, 0, 0, 0]);
    assert_eq!(&bytes[28..32], &[7, 0, 0, 0]);
    assert_eq!(&bytes[32..36], &[8, 0, 0, 0]);
    assert_eq!(&bytes[36..40], &[0xff, 0xff, 0xff, 0xff]);
}

#[test]
fn decoding_reads_the_fields() {
    let mut bytes = [0u8; 40];
    bytes[3] = 0x80;
    bytes[15] = 0x01;
    bytes[16..20].copy_from_slice(&1.5f32.to_le_bytes());
    bytes[36..40].copy_from_slice(&(-2.0f32).to_le_bytes());
    let entry = TransformEntry::from_bytes(bytes);
    assert_eq!(entry.id, (0x80u128 << 120) | (0x01u128 << 24));
    assert_eq!(f32::from_bits(entry.transform.a), 1.5);
    assert_eq!(f32::from_bits(entry.transform.f), -2.0);
    assert_eq!(entry.transform.b, 0);
    assert_eq!(entry.as_bytes(), bytes);
}

#[test]
fn round_trip_keeps_identifier_and_matrix() {
    let id = Uuid::new_v4();
    let entry = TransformEntry::new(id.as_u128(), affine_of([0.5, -0.25, 1e-7, 3.0e8, -0.0, 12.75]));
    let back = TransformEntry::from_bytes(entry.as_bytes());
    assert_eq!(Uuid::from_u128(back.id), id);
    assert_eq!(back, entry);
    assert_eq!(f32::from_bits(back.transform.c), 1e-7);
}

#[test]
fn type_codes_decode() {
    assert_eq!(Type::from(0), Type::Frame);
    assert_eq!(Type::from(1), Type::Group(Group { masked: false }));
    assert_eq!(Type::from(2), Type::Bool);
    assert_eq!(Type::from(3), Type::Rect);
    assert_eq!(Type::from(4), Type::Path);
    assert_eq!(Type::from(5), Type::Text);
    assert_eq!(Type::from(6), Type::Circle);
    assert_eq!(Type::from(7), Type::SVGRaw);
    assert_eq!(Type::from(8), Type::Rect);
    assert_eq!(Type::from(255), Type::Rect);
}

#[test]
fn constraint_codes_decode() {
    assert_eq!(ConstraintH::from(0), Some(ConstraintH::Left));
    assert_eq!(ConstraintH::from(1), Some(ConstraintH::Right));
    assert_eq!(ConstraintH::from(2), Some(ConstraintH::LeftRight));
    assert_eq!(ConstraintH::from(3), Some(ConstraintH::Center));
    assert_eq!(ConstraintH::from(4), Some(ConstraintH::Scale));
    assert_eq!(ConstraintH::from(5), None);
    assert_eq!(ConstraintV::from(0), Some(ConstraintV::Top));
    assert_eq!(ConstraintV::from(1), Some(ConstraintV::Bottom));
    assert_eq!(ConstraintV::from(2), Some(ConstraintV::TopBottom));
    assert_eq!(ConstraintV::from(3), Some(ConstraintV::Center));
    assert_eq!(ConstraintV::from(4), Some(ConstraintV::Scale));
    assert_eq!(ConstraintV::from(200), None);
}
