use sindri::component::BodyType;
use sindri::patching::{
    get, patch_body_type, patch_bool, patch_follow_entity, patch_string, patch_u32, patch_u8, JsonNumber, JsonValue,
    PatchError,
};

fn obj(members: Vec<(&str, JsonValue)>) -> JsonValue {
    JsonValue::Object(members.into_iter().map(|(k, v)| (k.to_string(), v)).collect())
}

fn uint(n: u64) -> JsonValue {
    JsonValue::Number(JsonNumber::PosInt(n))
}

#[test]
fn get_finds_members() {
    let body = obj(vec![("a", JsonValue::Bool(true)), ("b", JsonValue::Null)]);
    assert!(matches!(get(&body, "a"), Some(JsonValue::Bool(true))));
    assert!(matches!(get(&body, "b"), Some(JsonValue::Null)));
    assert!(get(&body, "c").is_none());
    assert!(get(&JsonValue::Bool(true), "a").is_none());
}

#[test]
fn patch_bool_and_string() {
    let body = obj(vec![("flip_x", JsonValue::Bool(true)), ("path", JsonValue::String("p.lua".to_string())), ("n", uint(1))]);
    let mut b = false;
    assert_eq!(patch_bool(&body, "flip_x", &mut b), Ok(()));
    assert!(b);
    assert_eq!(patch_bool(&body, "n", &mut b), Err(PatchError::NotBoolean("n".to_string())));
    assert_eq!(patch_bool(&body, "missing", &mut b), Ok(()));
    let mut s = "old".to_string();
    assert_eq!(patch_string(&body, "path", &mut s), Ok(()));
    assert_eq!(s, "p.lua");
    assert_eq!(patch_string(&body, "flip_x", &mut s), Err(PatchError::NotString("flip_x".to_string())));
    assert_eq!(s, "p.lua");
}

#[test]
fn patch_unsigned_fields() {
    let body = obj(vec![
        ("layer", uint(7)),
        ("big", uint(300)),
        ("neg", JsonValue::Number(JsonNumber::NegInt(-1))),
        ("frac", JsonValue::Number(JsonNumber::Float)),
        ("mask", uint(u32::MAX as u64 + 1)),
    ]);
    let mut l: u8 = 0;
    assert_eq!(patch_u8(&body, "layer", &mut l), Ok(()));
    assert_eq!(l, 7);
    let e = patch_u8(&body, "big", &mut l).unwrap_err();
    assert_eq!(e, PatchError::TooLarge("big".to_string(), 255));
    assert_eq!(e.message(), "big must be <= 255");
    assert_eq!(l, 7);
    let e = patch_u8(&body, "neg", &mut l).unwrap_err();
    assert_eq!(e.message(), "neg must be an unsigned integer");
    assert_eq!(patch_u8(&body, "frac", &mut l), Err(PatchError::NotUnsigned("frac".to_string())));
    let mut m: u32 = 0;
    let e = patch_u32(&body, "mask", &mut m).unwrap_err();
    assert_eq!(e.message(), "mask must be <= 4294967295");
    assert_eq!(patch_u32(&body, "big", &mut m), Ok(()));
    assert_eq!(m, 300);
}

#[test]
fn patch_follow_and_body_type() {
    let body = obj(vec![("follow", uint(4)), ("none", JsonValue::Null), ("bad", JsonValue::Bool(false))]);
    let mut f: Option<u64> = None;
    assert_eq!(patch_follow_entity(&body, "follow", &mut f), Ok(()));
    assert_eq!(f, Some(4));
    assert_eq!(patch_follow_entity(&body, "none", &mut f), Ok(()));
    assert_eq!(f, None);
    let e = patch_follow_entity(&body, "bad", &mut f).unwrap_err();
    assert_eq!(e.message(), "bad must be an unsigned integer or null");

    let mut t = BodyType::Dynamic;
    assert_eq!(patch_body_type(&obj(vec![("body_type", JsonValue::String("Fixed".to_string()))]), &mut t), Ok(()));
    assert_eq!(t, BodyType::Fixed);
    assert_eq!(patch_body_type(&obj(vec![("body_type", JsonValue::String("Wobbly".to_string()))]), &mut t), Err(PatchError::UnknownBodyType));
    assert_eq!(PatchError::UnknownBodyType.message(), "unknown body_type");
    assert_eq!(patch_body_type(&obj(vec![("body_type", uint(1))]), &mut t), Err(PatchError::BodyTypeNotString));
    assert_eq!(PatchError::BodyTypeNotString.message(), "body_type must be a string");
    assert_eq!(t, BodyType::Fixed);
    assert_eq!(patch_body_type(&obj(vec![]), &mut t), Ok(()));
    assert_eq!(PatchError::NotBoolean("x".to_string()).message(), "x must be a boolean");
    assert_eq!(PatchError::NotString("x".to_string()).message(), "x must be a string");
}
