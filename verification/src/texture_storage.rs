use vstd::prelude::*;

use crate::texture::Texture;

verus! {

use vstd::string::StringSliceAdditionalSpecFns;

/// Number of ticks after which a loaded texture is unloaded.
pub const MAX_UNUSED_COUNT: u32 = 10;

/// Where a texture is loaded from.
#[derive(Debug, Clone, Copy)]
pub enum TextureSrc {
    Png(&'static str),
}

/// Sources are told apart by their whole path: two PNG sources have the
/// same key exactly when their paths are the same text.
pub proof fn lemma_key_tells_paths_apart(p: &'static str, q: &'static str)
    ensures
        TextureSrc::Png(p).key() == TextureSrc::Png(q).key() <==> p@ == q@,
{
    vstd::utf8::encode_utf8_decode_utf8(p@);
    vstd::utf8::encode_utf8_decode_utf8(q@);
}

/// Registering one path leaves the entry of every other path as it was:
/// after `add` of `Png(q)` (an insert at its key), the entry of `Png(p)`,
/// for a different path `p`, is unchanged, present or absent.
pub proof fn lemma_add_keeps_other_paths(
    m: Map<Seq<u8>, TextureHandle>,
    p: &'static str,
    q: &'static str,
    h: TextureHandle,
)
    requires
        p@ != q@,
    ensures
        m.insert(TextureSrc::Png(q).key(), h).contains_key(TextureSrc::Png(p).key()) == m.contains_key(
            TextureSrc::Png(p).key(),
        ),
        m.insert(TextureSrc::Png(q).key(), h)[TextureSrc::Png(p).key()] == m[TextureSrc::Png(p).key()],
{
    lemma_key_tells_paths_apart(p, q);
}

impl TextureSrc {
    /// The bytes of the source's path, by which sources are told apart.
    pub open spec fn key(self) -> Seq<u8> {
        match self {
            TextureSrc::Png(path) => path.spec_bytes(),
        }
    }

    /// Whether two sources name the same path.
    pub fn same_as(&self, other: &TextureSrc) -> (r: bool)
        ensures
            r == (self.key() == other.key()),
    {
        let a = match self {
            TextureSrc::Png(path) => path.as_bytes(),
        };
        let b = match other {
            TextureSrc::Png(path) => path.as_bytes(),
        };
        if a.len() != b.len() {
            return false;
        }
        let mut i: usize = 0;
        while i < a.len()
            invariant
                a@ == self.key(),
                b@ == other.key(),
                a@.len() == b@.len(),
                i <= a@.len(),
                forall|k: int| 0 <= k < i ==> a@[k] == b@[k],
            decreases a@.len() - i,
        {
            if a[i] != b[i] {
                return false;
            }
            i = i + 1;
        }
        assert(a@ =~= b@);
        true
    }
}

/// Whether a texture's image is in memory.
pub enum TextureLoadState {
    Unloaded,
    Loading,
    Loaded(Texture),
}

/// A registered texture: its load state and how many ticks it has been loaded.
pub struct TextureHandle {
    pub state: TextureLoadState,
    pub unused_count: u32,
}

impl TextureHandle {
    /// Not loaded, count 0.
    pub open spec fn spec_new() -> TextureHandle {
        TextureHandle { state: TextureLoadState::Unloaded, unused_count: 0 }
    }

    /// Loaded with `tex`, count 0.
    pub open spec fn spec_loaded(tex: Texture) -> TextureHandle {
        TextureHandle { state: TextureLoadState::Loaded(tex), unused_count: 0 }
    }

    /// One tick: a loaded texture counts one more tick and is unloaded once
    /// it reaches `MAX_UNUSED_COUNT`; any other handle is unchanged.
    pub open spec fn ticked(self) -> TextureHandle {
        if self.state is Loaded {
            if self.unused_count + 1 >= MAX_UNUSED_COUNT {
                TextureHandle::spec_new()
            } else {
                TextureHandle { state: self.state, unused_count: (self.unused_count + 1) as u32 }
            }
        } else {
            self
        }
    }

    pub fn new() -> (h: TextureHandle)
        ensures
            h == TextureHandle::spec_new(),
    {
        TextureHandle { state: TextureLoadState::Unloaded, unused_count: 0 }
    }

    /// Drops the image, and resets the count.
    pub fn unload(&mut self)
        ensures
            *final(self) == TextureHandle::spec_new(),
    {
        self.state = TextureLoadState::Unloaded;
        self.unused_count = 0;
    }
}

/// Index of the first of the first `n` sources with path `key`.
pub open spec fn find_source(sources: Seq<TextureSrc>, key: Seq<u8>, n: int) -> Option<int>
    decreases n,
{
    if n <= 0 {
        None
    } else {
        match find_source(sources, key, n - 1) {
            Some(i) => Some(i),
            None => if sources[n - 1].key() == key {
                Some(n - 1)
            } else {
                None
            },
        }
    }
}


/// `h` after `n` ticks.
pub open spec fn ticked_times(h: TextureHandle, n: nat) -> TextureHandle
    decreases n,
{
    if n == 0 {
        h
    } else {
        ticked_times(h, (n - 1) as nat).ticked()
    }
}

/// A texture just loaded stays loaded, with the same image, for
/// `MAX_UNUSED_COUNT - 1` ticks, and the next tick unloads it.
pub proof fn lemma_loaded_texture_lifetime(tex: Texture, n: nat)
    requires
        n <= MAX_UNUSED_COUNT,
    ensures
        n < MAX_UNUSED_COUNT ==> ticked_times(TextureHandle::spec_loaded(tex), n) == (TextureHandle {
            state: TextureLoadState::Loaded(tex),
            unused_count: n as u32,
        }),
        n == MAX_UNUSED_COUNT ==> ticked_times(TextureHandle::spec_loaded(tex), n)
            == TextureHandle::spec_new(),
    decreases n,
{
    if n > 0 {
        lemma_loaded_texture_lifetime(tex, (n - 1) as nat);
    }
}

/// A texture that is registered and then loaded reads back the image loaded.
pub proof fn lemma_load_after_add(m: Map<Seq<u8>, TextureHandle>, src: TextureSrc, tex: Texture)
    ensures
        ({
            let added = m.insert(src.key(), TextureHandle::spec_new());
            let loaded = added.insert(src.key(), TextureHandle::spec_loaded(tex));
            &&& added.contains_key(src.key())
            &&& added[src.key()].state is Unloaded
            &&& loaded[src.key()].state is Loaded
            &&& loaded[src.key()].state->Loaded_0 == tex
        }),
{
}

/// Only loaded textures age: a tick leaves every texture that is not loaded as it is.
pub proof fn lemma_tick_keeps_unloaded(h: TextureHandle)
    requires
        !(h.state is Loaded),
    ensures
        h.ticked() == h,
{
}

/// Textures registered by source, with their load state.
pub struct TextureStorage {
    sources: Vec<TextureSrc>,
    handles: Vec<TextureHandle>,
}

impl View for TextureStorage {
    type V = Map<Seq<u8>, TextureHandle>;

    closed spec fn view(&self) -> Map<Seq<u8>, TextureHandle> {
        Map::new(
            |k: Seq<u8>| find_source(self.sources@, k, self.sources@.len() as int) is Some,
            |k: Seq<u8>| self.handles@[find_source(self.sources@, k, self.sources@.len() as int)->0],
        )
    }
}

proof fn lemma_find_bounds(sources: Seq<TextureSrc>, key: Seq<u8>, n: int)
    requires
        0 <= n <= sources.len(),
    ensures
        find_source(sources, key, n) matches Some(i) ==> 0 <= i < n && sources[i].key() == key
            && forall|j: int| 0 <= j < i ==> sources[j].key() != key,
        find_source(sources, key, n) is None ==> forall|j: int| 0 <= j < n ==> sources[j].key() != key,
    decreases n,
{
    if n > 0 {
        lemma_find_bounds(sources, key, n - 1);
    }
}

proof fn lemma_find_extends(sources: Seq<TextureSrc>, key: Seq<u8>, m: int, n: int)
    requires
        0 <= m <= n <= sources.len(),
        find_source(sources, key, m) is Some,
    ensures
        find_source(sources, key, n) == find_source(sources, key, m),
    decreases n - m,
{
    if n > m {
        lemma_find_extends(sources, key, m, n - 1);
    }
}

proof fn lemma_find_first(sources: Seq<TextureSrc>, key: Seq<u8>, i: int)
    requires
        0 <= i < sources.len(),
        sources[i].key() == key,
        forall|j: int| 0 <= j < i ==> sources[j].key() != key,
    ensures
        find_source(sources, key, sources.len() as int) == Some(i),
{
    lemma_find_bounds(sources, key, i);
    assert(find_source(sources, key, i + 1) == Some(i));
    lemma_find_extends(sources, key, i + 1, sources.len() as int);
}

proof fn lemma_find_prefix(s1: Seq<TextureSrc>, s2: Seq<TextureSrc>, key: Seq<u8>, n: int)
    requires
        0 <= n <= s1.len(),
        n <= s2.len(),
        forall|j: int| 0 <= j < n ==> s1[j] == s2[j],
    ensures
        find_source(s1, key, n) == find_source(s2, key, n),
    decreases n,
{
    if n > 0 {
        lemma_find_prefix(s1, s2, key, n - 1);
    }
}

impl TextureStorage {
    /// Sources and handles are paired.
    pub closed spec fn wf(&self) -> bool {
        &&& self.sources@.len() == self.handles@.len()
        &&& forall|i: int|
            0 <= i < self.handles@.len() ==> (#[trigger] self.handles@[i]).unused_count
                < MAX_UNUSED_COUNT
    }

    pub fn new() -> (s: TextureStorage)
        ensures
            s.wf(),
            s@ == Map::<Seq<u8>, TextureHandle>::empty(),
    {
        let s = TextureStorage { sources: Vec::new(), handles: Vec::new() };
        assert(s@ =~= Map::<Seq<u8>, TextureHandle>::empty());
        s
    }

    /// Index of the entry for `query`, if any.
    fn position(&self, query: &TextureSrc) -> (r: Option<usize>)
        requires
            self.wf(),
        ensures
            r matches Some(i) ==> find_source(self.sources@, query.key(), self.sources@.len() as int)
                == Some(i as int),
            r is None ==> find_source(self.sources@, query.key(), self.sources@.len() as int) is None,
    {
        let mut i: usize = 0;
        while i < self.sources.len()
            invariant
                i <= self.sources@.len(),
                forall|j: int| 0 <= j < i ==> self.sources@[j].key() != query.key(),
            decreases self.sources@.len() - i,
        {
            if self.sources[i].same_as(query) {
                proof {
                    lemma_find_first(self.sources@, query.key(), i as int);
                }
                return Some(i);
            }
            i = i + 1;
        }
        proof {
            lemma_find_bounds(self.sources@, query.key(), self.sources@.len() as int);
            if find_source(self.sources@, query.key(), self.sources@.len() as int) is Some {
                let k = find_source(self.sources@, query.key(), self.sources@.len() as int)->0;
                assert(self.sources@[k].key() == query.key());
            }
        }
        None
    }

    /// Registers `source` as not loaded, replacing any earlier registration.
    pub fn add(&mut self, source: TextureSrc)
        requires
            old(self).wf(),
        ensures
            final(self).wf(),
            final(self)@ == old(self)@.insert(source.key(), TextureHandle::spec_new()),
    {
        let ghost old_sources = self.sources@;
        let ghost old_handles = self.handles@;
        let ghost target = old(self)@.insert(source.key(), TextureHandle::spec_new());
        match self.position(&source) {
            Some(i) => {
                proof {
                    lemma_find_bounds(old_sources, source.key(), old_sources.len() as int);
                }
                self.handles.set(i, TextureHandle::new());
                proof {
                    assert forall|k: Seq<u8>| #[trigger] target.contains_key(k) implies self@.contains_key(k)
                        && self@[k] == target[k] by {
                        if k != source.key() {
                            lemma_find_bounds(old_sources, k, old_sources.len() as int);
                        }
                    }
                    assert forall|k: Seq<u8>| #[trigger] self@.contains_key(k) implies target.contains_key(k) by {}
                }
            },
            None => {
                self.sources.push(source);
                self.handles.push(TextureHandle::new());
                proof {
                    let n = old_sources.len() as int;
                    assert forall|k: Seq<u8>| true implies #[trigger] find_source(self.sources@, k, n + 1) == if find_source(
                        old_sources,
                        k,
                        n,
                    ) is Some {
                        find_source(old_sources, k, n)
                    } else if k == source.key() {
                        Some(n)
                    } else {
                        None
                    } by {
                        lemma_find_prefix(old_sources, self.sources@, k, n);
                        lemma_find_bounds(old_sources, k, n);
                    }
                    assert forall|k: Seq<u8>| #[trigger] target.contains_key(k) implies self@.contains_key(k)
                        && self@[k] == target[k] by {
                        assert(find_source(self.sources@, k, n + 1) == find_source(self.sources@, k, self.sources@.len() as int));
                        lemma_find_bounds(old_sources, k, n);
                    }
                    assert forall|k: Seq<u8>| #[trigger] self@.contains_key(k) implies target.contains_key(k) by {
                        assert(find_source(self.sources@, k, n + 1) == find_source(self.sources@, k, self.sources@.len() as int));
                    }
                }
            },
        }
        assert(self@ =~= target);
    }

    /// Advances every loaded texture by one tick, unloading those that reach
    /// `MAX_UNUSED_COUNT` ticks.
    pub fn tick(&mut self)
        requires
            old(self).wf(),
        ensures
            final(self).wf(),
            final(self)@ == old(self)@.map_values(|h: TextureHandle| h.ticked()),
    {
        let ghost old_handles = self.handles@;
        let mut i: usize = 0;
        while i < self.handles.len()
            invariant
                self.sources@.len() == self.handles@.len(),
                self.sources@ == old(self).sources@,
                old_handles.len() == self.handles@.len(),
                i <= self.handles@.len(),
                forall|j: int| 0 <= j < i ==> #[trigger] self.handles@[j] == old_handles[j].ticked(),
                forall|j: int| i <= j < self.handles@.len() ==> #[trigger] self.handles@[j] == old_handles[j],
                forall|j: int| 0 <= j < old_handles.len() ==> (#[trigger] old_handles[j]).unused_count < MAX_UNUSED_COUNT,
            decreases self.handles@.len() - i,
        {
            let is_loaded = match &self.handles[i].state {
                TextureLoadState::Loaded(_) => true,
                _ => false,
            };
            if is_loaded {
                let mut h = TextureHandle::new();
                std::mem::swap(&mut h, &mut self.handles[i]);
                if h.unused_count + 1 >= MAX_UNUSED_COUNT {
                    h.unload();
                } else {
                    h.unused_count = h.unused_count + 1;
                }
                self.handles.set(i, h);
            }
            i = i + 1;
        }
        proof {
            assert forall|k: Seq<u8>| #[trigger] self@.contains_key(k) implies self@[k]
                == old(self)@.map_values(|h: TextureHandle| h.ticked())[k] by {
                lemma_find_bounds(self.sources@, k, self.sources@.len() as int);
            }
        }
        assert(self@ =~= old(self)@.map_values(|h: TextureHandle| h.ticked()));
    }

    /// Whether the texture registered for `query` still has to be loaded.
    pub fn needs_load(&self, query: &TextureSrc) -> (r: bool)
        requires
            self.wf(),
            self@.contains_key(query.key()),
        ensures
            r == (self@[query.key()].state is Unloaded),
    {
        let i = self.position(query).unwrap();
        proof {
            lemma_find_bounds(self.sources@, query.key(), self.sources@.len() as int);
        }
        match &self.handles[i].state {
            TextureLoadState::Unloaded => true,
            _ => false,
        }
    }

    /// Stores the image loaded for `query`, if the texture is registered and
    /// not loaded; otherwise changes nothing.
    pub fn load(&mut self, query: &TextureSrc, tex: Texture)
        requires
            old(self).wf(),
        ensures
            final(self).wf(),
            final(self)@ == if old(self)@.contains_key(query.key()) && old(self)@[query.key()].state is Unloaded {
                old(self)@.insert(query.key(), TextureHandle::spec_loaded(tex))
            } else {
                old(self)@
            },
    {
        match self.position(query) {
            Some(i) => {
                proof {
                    lemma_find_bounds(self.sources@, query.key(), self.sources@.len() as int);
                }
                let unloaded = match &self.handles[i].state {
                    TextureLoadState::Unloaded => true,
                    _ => false,
                };
                if unloaded {
                    self.handles.set(i, TextureHandle { state: TextureLoadState::Loaded(tex), unused_count: 0 });
                    proof {
                        assert forall|k: Seq<u8>| #[trigger] self@.contains_key(k) implies self@[k]
                            == old(self)@.insert(query.key(), TextureHandle::spec_loaded(tex))[k] by {
                            if k != query.key() {
                                lemma_find_bounds(self.sources@, k, self.sources@.len() as int);
                            }
                        }
                    }
                    assert(self@ =~= old(self)@.insert(query.key(), TextureHandle::spec_loaded(tex)));
                }
            },
            None => {},
        }
    }

    /// The loaded texture registered for `query`.
    pub fn get(&self, query: &TextureSrc) -> (t: &Texture)
        requires
            self.wf(),
            self@.contains_key(query.key()),
            self@[query.key()].state is Loaded,
        ensures
            *t == self@[query.key()].state->Loaded_0,
    {
        let i = self.position(query).unwrap();
        proof {
            lemma_find_bounds(self.sources@, query.key(), self.sources@.len() as int);
        }
        match &self.handles[i].state {
            TextureLoadState::Loaded(texture) => texture,
            _ => vstd::pervasive::unreached(),
        }
    }
}

} // verus!
