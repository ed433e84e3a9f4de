//! Resolving the textures of a block model through its chain of parents:
//! each model names textures directly or by reference to another name, and
//! the first model of the chain that has elements gives them.
use vstd::prelude::*;

use crate::label::same_text;

verus! {

/// A texture as a model file gives it.
pub enum Texture {
    /// A texture, by its index in the texture table.
    Location(usize),
    /// Another texture name of the model or of its children, such as `#side`.
    Reference(String),
    Detailed { location: usize, force_translucent: bool },
}

/// What resolution needs to know of a block model file.
pub struct ModelData {
    pub parent: Option<usize>,
    /// None inherits it; resolution defaults it to true.
    pub ambientocclusion: Option<bool>,
    /// The model's texture names, in the order they are applied.
    pub textures: Vec<(String, Texture)>,
    /// Whether the model lists its own elements, which replace its parent's.
    pub has_elements: bool,
}

/// A texture after references are followed.
#[derive(Clone, Copy, PartialEq, Eq, Structural, Debug, Hash)]
pub struct ResolvedTexture {
    pub force_translucent: bool,
    pub location: usize,
}

/// `s` without its leading `#` characters.
pub open spec fn trim_hashes(s: Seq<char>) -> Seq<char>
    decreases s.len(),
{
    if s.len() > 0 && s[0] == '#' {
        trim_hashes(s.drop_first())
    } else {
        s
    }
}

/// The texture names after applying one entry of a model: a reference to
/// an unknown name changes nothing.
pub open spec fn apply_texture(names: Map<Seq<char>, ResolvedTexture>, entry: (String, Texture)) -> Map<Seq<char>, ResolvedTexture> {
    match entry.1 {
        Texture::Location(location) => names.insert(entry.0@, ResolvedTexture { force_translucent: false, location }),
        Texture::Detailed { location, force_translucent } => names.insert(entry.0@, ResolvedTexture { force_translucent, location }),
        Texture::Reference(r) => if names.contains_key(trim_hashes(r@)) {
            names.insert(entry.0@, names[trim_hashes(r@)])
        } else {
            names
        },
    }
}

/// The texture names after applying the entries of a model in order.
pub open spec fn apply_textures(names: Map<Seq<char>, ResolvedTexture>, entries: Seq<(String, Texture)>) -> Map<Seq<char>, ResolvedTexture>
    decreases entries.len(),
{
    if entries.len() == 0 {
        names
    } else {
        apply_texture(apply_textures(names, entries.drop_last()), entries.last())
    }
}

/// Following parents from `loc` reaches, within `fuel` steps, a model with
/// elements or without parent, every model met being known.
pub open spec fn chain_ends(models: Seq<ModelData>, loc: int, fuel: nat) -> bool
    decreases fuel,
{
    &&& 0 <= loc < models.len()
    &&& (models[loc].has_elements || models[loc].parent is None || (fuel > 0 && chain_ends(
        models,
        models[loc].parent->0 as int,
        (fuel - 1) as nat,
    )))
}

/// What resolving `loc` gives: whether ambient occlusion is on, the model
/// where the chain stopped, whether its elements are used (else there are
/// none), and the texture names.
pub open spec fn resolve_spec(
    models: Seq<ModelData>,
    names: Map<Seq<char>, ResolvedTexture>,
    ao: Option<bool>,
    loc: int,
    fuel: nat,
) -> (bool, int, bool, Map<Seq<char>, ResolvedTexture>)
    decreases fuel,
{
    let m = models[loc];
    let names2 = apply_textures(names, m.textures@);
    let ao2 = if ao is Some { ao } else { m.ambientocclusion };
    let enabled = match ao2 {
        Some(b) => b,
        None => true,
    };
    if m.has_elements {
        (enabled, loc, true, names2)
    } else if m.parent is Some && fuel > 0 {
        resolve_spec(models, names2, ao2, m.parent->0 as int, (fuel - 1) as nat)
    } else {
        (enabled, loc, false, names2)
    }
}

/// The model reached from `loc` by following `k` parents.
pub open spec fn ancestor(models: Seq<ModelData>, loc: int, k: nat) -> int
    decreases k,
{
    if k == 0 {
        loc
    } else {
        ancestor(models, models[loc].parent->0 as int, (k - 1) as nat)
    }
}

/// The first ambient occlusion setting among the model `loc` and the `k`
/// models reached from it by following parents.
pub open spec fn first_setting(models: Seq<ModelData>, loc: int, k: nat) -> Option<bool>
    decreases k,
{
    if models[loc].ambientocclusion is Some || k == 0 {
        models[loc].ambientocclusion
    } else {
        first_setting(models, models[loc].parent->0 as int, (k - 1) as nat)
    }
}

/// Resolution stops at the first model of the parent chain that has
/// elements: the model it gives is reached from `loc` by following parents,
/// none of the models passed on the way has elements, and the result has
/// elements exactly when that model has them; when it has none, it has no
/// parent either, so no model of the chain has elements. Ambient occlusion
/// follows the setting given, else the first setting met along the chain
/// up to that model, and is on when there is none.
pub proof fn lemma_resolution_stops_at_first_elements(
    models: Seq<ModelData>,
    names: Map<Seq<char>, ResolvedTexture>,
    ao: Option<bool>,
    loc: int,
    fuel: nat,
)
    requires
        chain_ends(models, loc, fuel),
    ensures
        ({
            let s = resolve_spec(models, names, ao, loc, fuel);
            &&& 0 <= s.1 < models.len()
            &&& s.2 == models[s.1].has_elements
            &&& (!s.2 ==> models[s.1].parent is None)
            &&& exists|k: nat| k <= fuel && #[trigger] ancestor(models, loc, k) == s.1 && (forall|j: nat| j < k
                ==> !models[#[trigger] ancestor(models, loc, j)].has_elements && models[ancestor(models, loc, j)].parent is Some)
                && s.0 == match (if ao is Some { ao } else { first_setting(models, loc, k) }) {
                    Some(b) => b,
                    None => true,
                }
        }),
    decreases fuel,
{
    let m = models[loc];
    let names2 = apply_textures(names, m.textures@);
    let ao2 = if ao is Some { ao } else { m.ambientocclusion };
    let s = resolve_spec(models, names, ao, loc, fuel);
    if m.has_elements || !(m.parent is Some && fuel > 0) {
        assert(ancestor(models, loc, 0) == loc);
        assert(first_setting(models, loc, 0) == m.ambientocclusion);
    } else {
        let p = m.parent->0 as int;
        lemma_resolution_stops_at_first_elements(models, names2, ao2, p, (fuel - 1) as nat);
        assert(s == resolve_spec(models, names2, ao2, p, (fuel - 1) as nat));
        let k0 = choose|k: nat| k <= fuel - 1 && #[trigger] ancestor(models, p, k) == s.1 && (forall|j: nat| j < k
            ==> !models[#[trigger] ancestor(models, p, j)].has_elements && models[ancestor(models, p, j)].parent is Some)
            && s.0 == match (if ao2 is Some { ao2 } else { first_setting(models, p, k) }) {
                Some(b) => b,
                None => true,
            };
        let k = k0 + 1;
        assert(ancestor(models, loc, k) == ancestor(models, p, k0));
        assert(first_setting(models, loc, k) == (if m.ambientocclusion is Some { m.ambientocclusion } else { first_setting(models, p, k0) }));
        assert forall|j: nat| j < k implies !models[#[trigger] ancestor(models, loc, j)].has_elements
            && models[ancestor(models, loc, j)].parent is Some by {
            if j > 0 {
                assert(ancestor(models, loc, j) == ancestor(models, p, (j - 1) as nat));
            }
        }
    }
}

/// Texture names with what they resolve to.
pub struct TextureNames {
    entries: Vec<(String, ResolvedTexture)>,
}

impl View for TextureNames {
    type V = Map<Seq<char>, ResolvedTexture>;

    closed spec fn view(&self) -> Map<Seq<char>, ResolvedTexture> {
        Map::new(
            |k: Seq<char>| exists|i: int| 0 <= i < self.entries.len() && #[trigger] self.entries@[i].0@ == k,
            |k: Seq<char>| self.entries@[choose|i: int| 0 <= i < self.entries.len() && #[trigger] self.entries@[i].0@ == k].1,
        )
    }
}

impl TextureNames {
    #[verifier::type_invariant]
    spec fn names_distinct(self) -> bool {
        forall|i: int, j: int| 0 <= i < j < self.entries.len() ==> self.entries@[i].0@ != self.entries@[j].0@
    }

    pub fn new() -> (r: Self)
        ensures
            r@ == Map::<Seq<char>, ResolvedTexture>::empty(),
    {
        let r = TextureNames { entries: Vec::new() };
        proof {
            assert(r@ =~= Map::<Seq<char>, ResolvedTexture>::empty());
        }
        r
    }

    /// The entry of the text `name[skip..]`.
    fn find_from(&self, name: &str, skip: usize) -> (r: Option<usize>)
        requires
            skip <= name@.len(),
        ensures
            match r {
                Some(i) => i < self.entries.len() && self.entries@[i as int].0@ == name@.subrange(skip as int, name@.len() as int),
                None => forall|i: int| 0 <= i < self.entries.len() ==> self.entries@[i].0@ != name@.subrange(skip as int, name@.len() as int),
            },
    {
        let n = name.unicode_len();
        let mut i: usize = 0;
        while i < self.entries.len()
            invariant
                i <= self.entries.len(),
                n == name@.len(),
                skip <= n,
                forall|j: int| 0 <= j < i ==> self.entries@[j].0@ != name@.subrange(skip as int, n as int),
            decreases self.entries.len() - i,
        {
            let key = self.entries[i].0.as_str();
            let len = key.unicode_len();
            if len == n - skip {
                let mut k: usize = 0;
                let mut same = true;
                while k < len && same
                    invariant
                        k <= len,
                        len == key@.len(),
                        len == n - skip,
                        n == name@.len(),
                        key@ == self.entries@[i as int].0@,
                        same ==> forall|j: int| 0 <= j < k ==> key@[j] == name@[skip + j],
                        !same ==> key@ != name@.subrange(skip as int, n as int),
                    decreases len - k + if same { 1int } else { 0int },
                {
                    if key.get_char(k) != name.get_char(skip + k) {
                        same = false;
                        proof {
                            assert(key@[k as int] != name@.subrange(skip as int, n as int)[k as int]);
                        }
                    } else {
                        k = k + 1;
                    }
                }
                if same {
                    proof {
                        assert(key@ =~= name@.subrange(skip as int, n as int));
                    }
                    return Some(i);
                }
            } else {
                proof {
                    assert(key@.len() != name@.subrange(skip as int, n as int).len());
                }
            }
            i = i + 1;
        }
        None
    }

    proof fn lemma_entry(&self, i: int)
        requires
            self.names_distinct(),
            0 <= i < self.entries.len(),
        ensures
            self@.contains_key(self.entries@[i].0@),
            self@[self.entries@[i].0@] == self.entries@[i].1,
    {
        let k = self.entries@[i].0@;
        let j = choose|j: int| 0 <= j < self.entries.len() && #[trigger] self.entries@[j].0@ == k;
        if j != i {
            if j < i {
                assert(self.entries@[j].0@ != self.entries@[i].0@);
            } else {
                assert(self.entries@[i].0@ != self.entries@[j].0@);
            }
        }
    }

    /// What `name[skip..]` resolves to.
    pub fn get_from(&self, name: &str, skip: usize) -> (r: Option<ResolvedTexture>)
        requires
            skip <= name@.len(),
        ensures
            ({
                let key = name@.subrange(skip as int, name@.len() as int);
                r == if self@.contains_key(key) { Some(self@[key]) } else { None::<ResolvedTexture> }
            }),
    {
        proof {
            use_type_invariant(self);
        }
        match self.find_from(name, skip) {
            Some(i) => {
                proof {
                    self.lemma_entry(i as int);
                }
                Some(self.entries[i].1)
            },
            None => None,
        }
    }

    /// Sets what `name` resolves to.
    pub fn insert(&mut self, name: String, value: ResolvedTexture)
        ensures
            final(self)@ == old(self)@.insert(name@, value),
    {
        proof {
            use_type_invariant(&*self);
        }
        let ghost old_entries = self.entries@;
        let found = self.find_from(name.as_str(), 0);
        proof {
            assert(name@.subrange(0, name@.len() as int) =~= name@);
        }
        let ghost key = name@;
        let mut entries: Vec<(String, ResolvedTexture)> = Vec::new();
        std::mem::swap(&mut entries, &mut self.entries);
        match found {
            Some(i) => {
                entries.set(i, (name, value));
            },
            None => {
                entries.push((name, value));
            },
        }
        proof {
            let n = old_entries.len() as int;
            assert forall|a: int, b: int| 0 <= a < b < entries.len() implies entries@[a].0@ != entries@[b].0@ by {
                if found is Some {
                    let i = found->0 as int;
                    if a == i {
                        assert(old_entries[i].0@ == key);
                        assert(old_entries[a].0@ != old_entries[b].0@);
                    } else if b == i {
                        assert(old_entries[a].0@ != old_entries[b].0@);
                    }
                } else if b == n {
                    assert(old_entries[a].0@ != key);
                }
            }
        }
        self.entries = entries;
        proof {
            let n = old_entries.len() as int;
            assert forall|k: Seq<char>| #[trigger] self@.dom().contains(k) == old(self)@.insert(key, value).dom().contains(k) by {
                if k != key {
                    if old(self)@.dom().contains(k) {
                        let j = choose|j: int| 0 <= j < old_entries.len() && #[trigger] old_entries[j].0@ == k;
                        assert(self.entries@[j].0@ == k);
                    }
                    if self@.dom().contains(k) {
                        let j = choose|j: int| 0 <= j < self.entries.len() && #[trigger] self.entries@[j].0@ == k;
                        assert(old_entries[j].0@ == k);
                    }
                } else {
                    let i = if found is Some { found->0 as int } else { n };
                    assert(self.entries@[i].0@ == k);
                }
            }
            assert forall|k: Seq<char>| #[trigger] self@.dom().contains(k) implies self@[k] == old(self)@.insert(key, value)[k] by {
                let j = choose|j: int| 0 <= j < self.entries.len() && #[trigger] self.entries@[j].0@ == k;
                if k != key {
                    assert(old_entries[j].0@ == k);
                    old(self).lemma_entry(j);
                } else {
                    let i = if found is Some { found->0 as int } else { n };
                    assert(self.entries@[i].0@ == k);
                    if j != i {
                        if j < i {
                            assert(self.entries@[j].0@ != self.entries@[i].0@);
                        } else {
                            assert(self.entries@[i].0@ != self.entries@[j].0@);
                        }
                    }
                }
            }
            assert(self@ =~= old(self)@.insert(key, value));
        }
    }
}

/// The number of leading `#` characters of `s`.
fn leading_hashes(s: &str) -> (r: usize)
    ensures
        r <= s@.len(),
        trim_hashes(s@) == s@.subrange(r as int, s@.len() as int),
{
    let n = s.unicode_len();
    let mut i: usize = 0;
    proof {
        assert(s@.subrange(0, n as int) =~= s@);
    }
    while i < n && s.get_char(i) == '#'
        invariant
            i <= n,
            n == s@.len(),
            trim_hashes(s@) == trim_hashes(s@.subrange(i as int, n as int)),
        decreases n - i,
    {
        proof {
            let t = s@.subrange(i as int, n as int);
            assert(t.drop_first() =~= s@.subrange(i + 1, n as int));
        }
        i = i + 1;
    }
    proof {
        let t = s@.subrange(i as int, n as int);
        assert(s@.subrange(0, n as int) =~= s@);
        if i < n {
            assert(t[0] != '#');
        }
    }
    i
}

/// Applies the texture entries of one model to `names`.
fn apply_model_textures(names: &mut TextureNames, entries: &Vec<(String, Texture)>)
    ensures
        final(names)@ == apply_textures(old(names)@, entries@),
{
    let mut i: usize = 0;
    while i < entries.len()
        invariant
            i <= entries.len(),
            names@ == apply_textures(old(names)@, entries@.take(i as int)),
        decreases entries.len() - i,
    {
        let ghost before = names@;
        let (name, texture) = &entries[i];
        match texture {
            Texture::Location(location) => {
                names.insert(name.clone(), ResolvedTexture { force_translucent: false, location: *location });
            },
            Texture::Detailed { location, force_translucent } => {
                names.insert(name.clone(), ResolvedTexture { force_translucent: *force_translucent, location: *location });
            },
            Texture::Reference(reference) => {
                let skip = leading_hashes(reference.as_str());
                match names.get_from(reference.as_str(), skip) {
                    Some(value) => {
                        names.insert(name.clone(), value);
                    },
                    None => {},
                }
            },
        }
        proof {
            assert(entries@.take(i + 1).drop_last() =~= entries@.take(i as int));
            assert(entries@.take(i + 1).last() == entries@[i as int]);
        }
        i = i + 1;
    }
    proof {
        assert(entries@.take(i as int) =~= entries@);
    }
}

/// The model a chain stops at and its resolved textures.
pub struct ResolvedElements {
    pub enable_ambient_occlusion: bool,
    /// The model where the chain of parents stopped.
    pub model: usize,
    /// Whether that model's elements are used; otherwise there are none.
    pub has_elements: bool,
    pub textures: TextureNames,
}

/// Resolves the model `model_location`: follows its parents until one has
/// elements, applying the texture names of each model met, the model's own
/// first, and takes the first ambient occlusion setting met.
pub fn resolve_model_elements(models: &Vec<ModelData>, model_location: usize) -> (r: ResolvedElements)
    requires
        chain_ends(models@, model_location as int, models.len() as nat),
    ensures
        ({
            let s = resolve_spec(models@, Map::empty(), None, model_location as int, models.len() as nat);
            &&& r.enable_ambient_occlusion == s.0
            &&& r.model == s.1
            &&& r.has_elements == s.2
            &&& r.textures@ == s.3
        }),
{
    let mut names = TextureNames::new();
    let mut ao: Option<bool> = None;
    let mut loc = model_location;
    let mut fuel = models.len();
    loop
        invariant
            chain_ends(models@, loc as int, fuel as nat),
            resolve_spec(models@, names@, ao, loc as int, fuel as nat)
                == resolve_spec(models@, Map::empty(), None, model_location as int, models.len() as nat),
        decreases fuel,
    {
        let m = &models[loc];
        apply_model_textures(&mut names, &m.textures);
        if ao.is_none() {
            ao = m.ambientocclusion;
        }
        let enabled = match ao {
            Some(b) => b,
            None => true,
        };
        if m.has_elements {
            return ResolvedElements { enable_ambient_occlusion: enabled, model: loc, has_elements: true, textures: names };
        }
        match m.parent {
            Some(parent) => {
                loc = parent;
                fuel = fuel - 1;
            },
            None => {
                return ResolvedElements { enable_ambient_occlusion: enabled, model: loc, has_elements: false, textures: names };
            },
        }
    }
}

} // verus!
