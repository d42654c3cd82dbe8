use std::cell::Cell;

use sindri::assets::AssetManager;
use sindri::render::{FontHandle, TextureHandle};

#[test]
fn load_texture_caches_by_path() {
    let mut assets = AssetManager::new();
    let calls = Cell::new(0);
    let load = |p: &str| {
        calls.set(calls.get() + 1);
        Ok::<TextureHandle, String>(TextureHandle::new(p.len() as u32))
    };
    assert_eq!(assets.load_texture("hero.png", load), Ok(TextureHandle(8)));
    assert_eq!(calls.get(), 1);
    let again = assets.load_texture("hero.png", |_p: &str| -> Result<TextureHandle, String> {
        panic!("cached textures are not loaded again")
    });
    assert_eq!(again, Ok(TextureHandle(8)));
    assert!(assets.has_texture("hero.png"));
    assert_eq!(assets.get_texture("hero.png"), Some(TextureHandle(8)));
    assert_eq!(assets.get_texture("other.png"), None);
}

#[test]
fn failed_load_caches_nothing() {
    let mut assets = AssetManager::default();
    let r = assets.load_texture("missing.png", |_p: &str| Err::<TextureHandle, String>("no file".to_string()));
    assert_eq!(r, Err("no file".to_string()));
    assert!(!assets.has_texture("missing.png"));
}

#[test]
fn bytes_and_fonts() {
    let mut assets = AssetManager::new();
    let bytes = [1u8, 2, 3];
    let t = assets.load_texture_from_bytes("gen", &bytes, |b: &[u8]| Ok::<TextureHandle, ()>(TextureHandle(b.len() as u32)));
    assert_eq!(t, Ok(TextureHandle(3)));
    let f = assets.load_font_from_bytes("ui", &bytes, |b: &[u8]| Ok::<FontHandle, ()>(FontHandle(b[0] as u32)));
    assert_eq!(f, Ok(FontHandle(1)));
    let f2 = assets.load_font_from_file("fonts/mono.ttf", |_p: &str| Ok::<FontHandle, ()>(FontHandle(9)));
    assert_eq!(f2, Ok(FontHandle(9)));
    assert!(assets.has_font("ui") && assets.has_font("fonts/mono.ttf"));
    assert_eq!(assets.get_font("ui"), Some(FontHandle(1)));
    // Textures and fonts have separate caches.
    assert!(!assets.has_font("gen"));
    assert!(!assets.has_texture("ui"));
}

#[test]
fn unload_and_clear() {
    let mut assets = AssetManager::new();
    assets.load_texture("a", |_p: &str| Ok::<TextureHandle, ()>(TextureHandle(1))).unwrap();
    assets.load_texture("b", |_p: &str| Ok::<TextureHandle, ()>(TextureHandle(2))).unwrap();
    assets.load_font_from_bytes("f", &[], |_b: &[u8]| Ok::<FontHandle, ()>(FontHandle(3))).unwrap();
    assets.unload_texture("a");
    assert!(!assets.has_texture("a"));
    assert!(assets.has_texture("b"));
    assets.unload_font("f");
    assert!(!assets.has_font("f"));
    assets.load_font_from_bytes("f", &[], |_b: &[u8]| Ok::<FontHandle, ()>(FontHandle(4))).unwrap();
    assets.clear();
    assert!(!assets.has_texture("b"));
    assert!(!assets.has_font("f"));
}
