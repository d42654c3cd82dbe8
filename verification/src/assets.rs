//! A cache of loaded assets, keyed by path or by a caller-chosen name.
//!
//! The cache decides whether a load is needed; the loading itself (decoding
//! an image, reading a file, uploading to the GPU) is handed in as a closure
//! that is called only on a miss.
use vstd::prelude::*;
use vstd::hash_map::StringHashMap;
use crate::render::{FontHandle, TextureHandle};

verus! {

/// Manages cached assets (textures and fonts).
pub struct AssetManager {
    textures: StringHashMap<TextureHandle>,
    fonts: StringHashMap<FontHandle>,
}

/// What a cached load leaves in the cache: on success the key maps to the
/// handle that came back; on failure the cache is as it was.
pub open spec fn cache_after<H, E>(cache: Map<Seq<char>, H>, key: Seq<char>, r: Result<H, E>) -> Map<Seq<char>, H> {
    match r {
        Ok(h) => cache.insert(key, h),
        Err(_) => cache,
    }
}

impl AssetManager {
    /// The cached textures, by key.
    pub closed spec fn textures(&self) -> Map<Seq<char>, TextureHandle> {
        self.textures@
    }

    /// The cached fonts, by key.
    pub closed spec fn fonts(&self) -> Map<Seq<char>, FontHandle> {
        self.fonts@
    }

    /// Create a new asset manager with no cached assets.
    pub fn new() -> (m: Self)
        ensures
            m.textures() == Map::<Seq<char>, TextureHandle>::empty(),
            m.fonts() == Map::<Seq<char>, FontHandle>::empty(),
    {
        AssetManager { textures: StringHashMap::new(), fonts: StringHashMap::new() }
    }

    /// Return the texture cached under `key`, or call `load(arg)` and cache
    /// its handle under `key` if it succeeds.
    fn cached_texture<A, E, F: FnOnce(A) -> Result<TextureHandle, E>>(&mut self, key: &str, arg: A, load: F) -> (r: Result<TextureHandle, E>)
        requires
            !old(self).textures().contains_key(key@) ==> call_requires(load, (arg,)),
        ensures
            old(self).textures().contains_key(key@) ==> r == Ok::<TextureHandle, E>(old(self).textures()[key@]) && final(self).textures() == old(self).textures(),
            !old(self).textures().contains_key(key@) ==> call_ensures(load, (arg,), r) && final(self).textures() == cache_after(old(self).textures(), key@, r),
            final(self).fonts() == old(self).fonts(),
    {
        match self.textures.get(key) {
            Some(h) => {
                return Ok(*h);
            },
            None => {},
        }
        let r = load(arg);
        match r {
            Ok(h) => {
                self.textures.insert(key.to_owned(), h);
                Ok(h)
            },
            Err(e) => Err(e),
        }
    }

    /// Return the font cached under `key`, or call `load(arg)` and cache its
    /// handle under `key` if it succeeds.
    fn cached_font<A, E, F: FnOnce(A) -> Result<FontHandle, E>>(&mut self, key: &str, arg: A, load: F) -> (r: Result<FontHandle, E>)
        requires
            !old(self).fonts().contains_key(key@) ==> call_requires(load, (arg,)),
        ensures
            old(self).fonts().contains_key(key@) ==> r == Ok::<FontHandle, E>(old(self).fonts()[key@]) && final(self).fonts() == old(self).fonts(),
            !old(self).fonts().contains_key(key@) ==> call_ensures(load, (arg,), r) && final(self).fonts() == cache_after(old(self).fonts(), key@, r),
            final(self).textures() == old(self).textures(),
    {
        match self.fonts.get(key) {
            Some(h) => {
                return Ok(*h);
            },
            None => {},
        }
        let r = load(arg);
        match r {
            Ok(h) => {
                self.fonts.insert(key.to_owned(), h);
                Ok(h)
            },
            Err(e) => Err(e),
        }
    }

    /// Load a texture from a file path, caching it by the path.
    ///
    /// If the texture was loaded before, the cached handle comes back and
    /// `load` is not called; otherwise `load(path)` loads it and a handle it
    /// returns is cached.
    pub fn load_texture<'a, E, F: FnOnce(&'a str) -> Result<TextureHandle, E>>(&mut self, path: &'a str, load: F) -> (r: Result<TextureHandle, E>)
        requires
            !old(self).textures().contains_key(path@) ==> call_requires(load, (path,)),
        ensures
            old(self).textures().contains_key(path@) ==> r == Ok::<TextureHandle, E>(old(self).textures()[path@]) && final(self).textures() == old(self).textures(),
            !old(self).textures().contains_key(path@) ==> call_ensures(load, (path,), r) && final(self).textures() == cache_after(old(self).textures(), path@, r),
            final(self).fonts() == old(self).fonts(),
    {
        self.cached_texture(path, path, load)
    }

    /// Load a texture from bytes, caching it by a given key.
    ///
    /// Useful for embedded assets or generated textures: `decode(bytes)` is
    /// called only when nothing is cached under `key`.
    pub fn load_texture_from_bytes<'a, E, F: FnOnce(&'a [u8]) -> Result<TextureHandle, E>>(&mut self, key: &str, bytes: &'a [u8], decode: F) -> (r: Result<TextureHandle, E>)
        requires
            !old(self).textures().contains_key(key@) ==> call_requires(decode, (bytes,)),
        ensures
            old(self).textures().contains_key(key@) ==> r == Ok::<TextureHandle, E>(old(self).textures()[key@]) && final(self).textures() == old(self).textures(),
            !old(self).textures().contains_key(key@) ==> call_ensures(decode, (bytes,), r) && final(self).textures() == cache_after(old(self).textures(), key@, r),
            final(self).fonts() == old(self).fonts(),
    {
        self.cached_texture(key, bytes, decode)
    }

    /// Load a font from bytes (TTF/OTF), caching it by a given key.
    pub fn load_font_from_bytes<'a, E, F: FnOnce(&'a [u8]) -> Result<FontHandle, E>>(&mut self, key: &str, bytes: &'a [u8], decode: F) -> (r: Result<FontHandle, E>)
        requires
            !old(self).fonts().contains_key(key@) ==> call_requires(decode, (bytes,)),
        ensures
            old(self).fonts().contains_key(key@) ==> r == Ok::<FontHandle, E>(old(self).fonts()[key@]) && final(self).fonts() == old(self).fonts(),
            !old(self).fonts().contains_key(key@) ==> call_ensures(decode, (bytes,), r) && final(self).fonts() == cache_after(old(self).fonts(), key@, r),
            final(self).textures() == old(self).textures(),
    {
        self.cached_font(key, bytes, decode)
    }

    /// Load a font from a file path, caching it by the path; `load(path)`
    /// reads and loads the file on a miss.
    pub fn load_font_from_file<'a, E, F: FnOnce(&'a str) -> Result<FontHandle, E>>(&mut self, path: &'a str, load: F) -> (r: Result<FontHandle, E>)
        requires
            !old(self).fonts().contains_key(path@) ==> call_requires(load, (path,)),
        ensures
            old(self).fonts().contains_key(path@) ==> r == Ok::<FontHandle, E>(old(self).fonts()[path@]) && final(self).fonts() == old(self).fonts(),
            !old(self).fonts().contains_key(path@) ==> call_ensures(load, (path,), r) && final(self).fonts() == cache_after(old(self).fonts(), path@, r),
            final(self).textures() == old(self).textures(),
    {
        self.cached_font(path, path, load)
    }

    /// Get a cached texture handle by key, if it exists.
    pub fn get_texture(&self, key: &str) -> (r: Option<TextureHandle>)
        ensures
            r == (if self.textures().contains_key(key@) { Some(self.textures()[key@]) } else { None::<TextureHandle> }),
    {
        match self.textures.get(key) {
            Some(h) => Some(*h),
            None => None,
        }
    }

    /// Get a cached font handle by key, if it exists.
    pub fn get_font(&self, key: &str) -> (r: Option<FontHandle>)
        ensures
            r == (if self.fonts().contains_key(key@) { Some(self.fonts()[key@]) } else { None::<FontHandle> }),
    {
        match self.fonts.get(key) {
            Some(h) => Some(*h),
            None => None,
        }
    }

    /// Check if a texture is already cached.
    pub fn has_texture(&self, key: &str) -> (b: bool)
        ensures
            b == self.textures().contains_key(key@),
    {
        self.textures.contains_key(key)
    }

    /// Check if a font is already cached.
    pub fn has_font(&self, key: &str) -> (b: bool)
        ensures
            b == self.fonts().contains_key(key@),
    {
        self.fonts.contains_key(key)
    }

    /// Clear all cached textures and fonts (they will be reloaded on next access).
    pub fn clear(&mut self)
        ensures
            final(self).textures() == Map::<Seq<char>, TextureHandle>::empty(),
            final(self).fonts() == Map::<Seq<char>, FontHandle>::empty(),
    {
        self.textures.clear();
        self.fonts.clear();
    }

    /// Remove a specific texture from the cache.
    pub fn unload_texture(&mut self, key: &str)
        ensures
            final(self).textures() == old(self).textures().remove(key@),
            final(self).fonts() == old(self).fonts(),
    {
        self.textures.remove(key);
    }

    /// Remove a specific font from the cache.
    pub fn unload_font(&mut self, key: &str)
        ensures
            final(self).fonts() == old(self).fonts().remove(key@),
            final(self).textures() == old(self).textures(),
    {
        self.fonts.remove(key);
    }
}

impl Default for AssetManager {
    fn default() -> (m: Self)
        ensures
            m.textures() == Map::<Seq<char>, TextureHandle>::empty(),
            m.fonts() == Map::<Seq<char>, FontHandle>::empty(),
    {
        Self::new()
    }
}

} // verus!
