//! The registry catalog: a name-keyed collection of configured registry
//! mirrors. Names are unique; insertion order is kept for listing. The
//! catalog's mathematical model is a map from registry names to registry
//! data.

use vstd::prelude::*;
use crate::npmrc::find_registry_url;
use crate::npmrc::spec_find_registry_url;
use crate::text::str_eq;

verus! {

/// One configured registry mirror: its package-download endpoint and an
/// optional homepage.
pub struct Registry {
    pub registry: String,
    pub home: Option<String>,
}

/// The mathematical value of a `Registry`: its URLs as character sequences.
pub ghost struct RegistryView {
    pub registry: Seq<char>,
    pub home: Option<Seq<char>>,
}

impl View for Registry {
    type V = RegistryView;

    open spec fn view(&self) -> RegistryView {
        RegistryView { registry: self.registry@, home: self.home.deep_view() }
    }
}

impl Clone for Registry {
    fn clone(&self) -> (r: Self)
        ensures
            r@ == self@,
    {
        Registry {
            registry: self.registry.clone(),
            home: match &self.home {
                Option::Some(h) => Option::Some(h.clone()),
                Option::None => Option::None,
            },
        }
    }
}

/// No two entries carry the same name.
pub open spec fn unique_names(s: Seq<(String, Registry)>) -> bool {
    forall|i: int, j: int| 0 <= i < j < s.len() ==> (#[trigger] s[i].0@) != (#[trigger] s[j].0@)
}

/// Some entry of `s` carries the name `n`.
pub open spec fn has_name(s: Seq<(String, Registry)>, n: Seq<char>) -> bool {
    exists|i: int| 0 <= i < s.len() && (#[trigger] s[i].0@) == n
}

/// The map folded from an entry sequence, later entries overriding earlier
/// ones (irrelevant once names are unique).
pub open spec fn map_of(s: Seq<(String, Registry)>) -> Map<Seq<char>, RegistryView>
    decreases s.len(),
{
    if s.len() == 0 {
        Map::empty()
    } else {
        map_of(s.drop_last()).insert(s.last().0@, s.last().1@)
    }
}

/// What the fold yields when names are unique: a key for exactly the names
/// present, each mapped to its entry's data.
pub proof fn lemma_map_of_props(s: Seq<(String, Registry)>)
    requires
        unique_names(s),
    ensures
        forall|n: Seq<char>| #[trigger] map_of(s).contains_key(n) <==> has_name(s, n),
        forall|i: int| 0 <= i < s.len() ==> map_of(s)[(#[trigger] s[i].0@)] == s[i].1@,
    decreases s.len(),
{
    if s.len() > 0 {
        let t = s.drop_last();
        assert(unique_names(t));
        lemma_map_of_props(t);
        assert forall|n: Seq<char>| #[trigger] map_of(s).contains_key(n) <==> has_name(s, n) by {
            assert(map_of(s) == map_of(t).insert(s.last().0@, s.last().1@));
            if map_of(s).contains_key(n) {
                if n == s.last().0@ {
                    assert(s[s.len() - 1].0@ == n);
                    assert(has_name(s, n));
                } else {
                    assert(map_of(t).contains_key(n));
                    assert(has_name(t, n));
                    let i = choose|i: int| 0 <= i < t.len() && (#[trigger] t[i].0@) == n;
                    assert(t[i] == s[i]);
                    assert(s[i].0@ == n);
                    assert(has_name(s, n));
                }
            }
            if has_name(s, n) {
                let i = choose|i: int| 0 <= i < s.len() && (#[trigger] s[i].0@) == n;
                if i < s.len() - 1 {
                    assert(t[i] == s[i]);
                    assert(t[i].0@ == n);
                    assert(has_name(t, n));
                    assert(map_of(t).contains_key(n));
                    assert(map_of(s).contains_key(n));
                } else {
                    assert(n == s.last().0@);
                    assert(map_of(s).contains_key(n));
                }
            }
        }
        assert forall|i: int| 0 <= i < s.len() implies map_of(s)[(#[trigger] s[i].0@)]
            == s[i].1@ by {
            if i < s.len() - 1 {
                assert(s[i].0@ != s.last().0@);
                assert(t[i].0@ == s[i].0@ && t[i].1 == s[i].1);
            }
        }
    }
}

/// Removing the entry at `i` removes exactly its name from the map.
pub proof fn lemma_map_of_remove(s: Seq<(String, Registry)>, i: int)
    requires
        unique_names(s),
        0 <= i < s.len(),
    ensures
        map_of(s.remove(i)) =~= map_of(s).remove(s[i].0@),
    decreases s.len(),
{
    let t = s.drop_last();
    assert(unique_names(t));
    if i == s.len() - 1 {
        assert(s.remove(i) =~= t);
        lemma_map_of_props(t);
        assert(!has_name(t, s[i].0@)) by {
            if has_name(t, s[i].0@) {
                let j = choose|j: int| 0 <= j < t.len() && (#[trigger] t[j].0@) == s[i].0@;
                assert(s[j].0@ == s[i].0@);
            }
        }
        assert(!map_of(t).contains_key(s[i].0@));
        assert(map_of(t) =~= map_of(t).insert(s.last().0@, s.last().1@).remove(s[i].0@));
    } else {
        lemma_map_of_remove(t, i);
        assert(s.remove(i).drop_last() =~= t.remove(i));
        assert(s.remove(i).last() == s.last());
        assert(s[i].0@ != s.last().0@);
        assert(map_of(s.remove(i)) == map_of(t.remove(i)).insert(s.last().0@, s.last().1@));
        assert(map_of(t.remove(i)) =~= map_of(t).remove(s[i].0@));
        assert(map_of(t).remove(s[i].0@).insert(s.last().0@, s.last().1@) =~= map_of(t).insert(
            s.last().0@,
            s.last().1@,
        ).remove(s[i].0@));
    }
}

/// The catalog of configured registries, keyed by unique names.
pub struct Store {
    registries: Vec<(String, Registry)>,
}

impl View for Store {
    type V = Seq<(String, Registry)>;

    closed spec fn view(&self) -> Seq<(String, Registry)> {
        self.registries@
    }
}

impl Store {
    /// Names are unique across the catalog.
    pub open spec fn wf(&self) -> bool {
        unique_names(self@)
    }

    /// The catalog as a map from registry name to registry data.
    pub open spec fn as_map(&self) -> Map<Seq<char>, RegistryView> {
        map_of(self@)
    }

    /// An empty catalog.
    pub fn new() -> (s: Store)
        ensures
            s.wf(),
            s@ == Seq::<(String, Registry)>::empty(),
            s.as_map() == Map::<Seq<char>, RegistryView>::empty(),
    {
        Store { registries: Vec::new() }
    }

    pub fn len(&self) -> (n: usize)
        ensures
            n == self@.len(),
    {
        self.registries.len()
    }

    /// The index of the entry named `name`, if any.
    fn index_of(&self, name: &str) -> (r: Option<usize>)
        ensures
            match r {
                Option::Some(i) => i < self@.len() && self@[i as int].0@ == name@,
                Option::None => !has_name(self@, name@),
            },
    {
        let mut i: usize = 0;
        while i < self.registries.len()
            invariant
                i <= self@.len(),
                forall|j: int| 0 <= j < i ==> (#[trigger] self@[j].0@) != name@,
            decreases self@.len() - i,
        {
            if str_eq(self.registries[i].0.as_str(), name) {
                return Option::Some(i);
            }
            i = i + 1;
        }
        Option::None
    }

    /// Whether a registry of this name is configured.
    pub fn contains(&self, name: &str) -> (r: bool)
        requires
            self.wf(),
        ensures
            r == self.as_map().contains_key(name@),
    {
        proof {
            lemma_map_of_props(self@);
        }
        match self.index_of(name) {
            Option::Some(_) => true,
            Option::None => false,
        }
    }

    /// Look a registry up by name.
    pub fn get(&self, name: &str) -> (r: Option<&Registry>)
        requires
            self.wf(),
        ensures
            match r {
                Option::Some(reg) => self.as_map().contains_key(name@) && reg@ == self.as_map()[
                    name@],
                Option::None => !self.as_map().contains_key(name@),
            },
    {
        proof {
            lemma_map_of_props(self@);
        }
        match self.index_of(name) {
            Option::Some(i) => Option::Some(&self.registries[i].1),
            Option::None => Option::None,
        }
    }

    /// Add a registry under `name`, replacing any registry already
    /// configured under that name.
    pub fn add_registry(&mut self, name: String, reg: Registry)
        requires
            old(self).wf(),
        ensures
            final(self).wf(),
            final(self).as_map() == old(self).as_map().insert(name@, reg@),
            final(self)@.len() == if old(self).as_map().contains_key(name@) {
                old(self)@.len()
            } else {
                old(self)@.len() + 1
            },
    {
        proof {
            lemma_map_of_props(self@);
        }
        let ghost s0 = self@;
        match self.index_of(name.as_str()) {
            Option::Some(i) => {
                self.registries.remove(i);
                proof {
                    lemma_map_of_remove(s0, i as int);
                    assert(unique_names(self@)) by {
                        assert(forall|a: int|
                            0 <= a < self@.len() ==> #[trigger] self@[a] == if a < i as int {
                                s0[a]
                            } else {
                                s0[a + 1]
                            });
                    }
                    assert(!has_name(self@, name@)) by {
                        if has_name(self@, name@) {
                            let j = choose|j: int|
                                0 <= j < self@.len() && (#[trigger] self@[j].0@) == name@;
                            if j < i as int {
                                assert(s0[j].0@ == name@);
                            } else {
                                assert(s0[j + 1].0@ == name@);
                            }
                        }
                    }
                }
            },
            Option::None => {},
        }
        let ghost s1 = self@;
        proof {
            lemma_map_of_props(s1);
        }
        self.registries.push((name, reg));
        proof {
            assert(self@.drop_last() =~= s1);
            assert(unique_names(self@)) by {
                assert forall|a: int, b: int| 0 <= a < b < self@.len() implies (
                #[trigger] self@[a].0@) != (#[trigger] self@[b].0@) by {
                    if b == self@.len() - 1 {
                        assert(!has_name(s1, name@));
                        assert(s1[a].0@ != name@);
                    }
                }
            }
            assert(map_of(self@) == map_of(s1).insert(name@, reg@));
            assert(map_of(self@) =~= map_of(s0).insert(name@, reg@));
        }
    }

    /// Remove the registry named `name` and hand it back, or `None` — and
    /// change nothing — when no registry of that name is configured.
    pub fn remove_registry(&mut self, name: &str) -> (r: Option<Registry>)
        requires
            old(self).wf(),
        ensures
            final(self).wf(),
            match r {
                Option::Some(reg) => old(self).as_map().contains_key(name@) && reg@ == old(
                    self,
                ).as_map()[name@] && final(self).as_map() == old(self).as_map().remove(name@),
                Option::None => !old(self).as_map().contains_key(name@) && final(self)@ == old(
                    self,
                )@,
            },
    {
        proof {
            lemma_map_of_props(self@);
        }
        let ghost s0 = self@;
        match self.index_of(name) {
            Option::Some(i) => {
                let entry = self.registries.remove(i);
                proof {
                    lemma_map_of_remove(s0, i as int);
                    assert(unique_names(self@)) by {
                        assert(forall|a: int|
                            0 <= a < self@.len() ==> #[trigger] self@[a] == if a < i as int {
                                s0[a]
                            } else {
                                s0[a + 1]
                            });
                    }
                    assert(map_of(self@) =~= map_of(s0).remove(name@));
                }
                Option::Some(entry.1)
            },
            Option::None => Option::None,
        }
    }

    /// The catalog as (name, endpoint URL) pairs, in catalog order — the
    /// endpoint list that one speed-test run probes.
    pub fn entries(&self) -> (v: Vec<(String, String)>)
        ensures
            v@.len() == self@.len(),
            forall|i: int|
                0 <= i < self@.len() ==> (#[trigger] v@[i]).0@ == self@[i].0@ && v@[i].1@
                    == self@[i].1.registry@,
    {
        let mut v: Vec<(String, String)> = Vec::new();
        let mut i: usize = 0;
        while i < self.registries.len()
            invariant
                i <= self@.len(),
                v@.len() == i,
                forall|j: int|
                    0 <= j < i ==> (#[trigger] v@[j]).0@ == self@[j].0@ && v@[j].1@
                        == self@[j].1.registry@,
            decreases self@.len() - i,
        {
            let name = self.registries[i].0.clone();
            let url = self.registries[i].1.registry.clone();
            v.push((name, url));
            i = i + 1;
        }
        v
    }

    /// Decide the listing: one row per catalog entry, in catalog order,
    /// tagged with whether its name is the current global or the current
    /// local registry name.
    pub fn list_entries(&self, current_global: Option<&str>, current_local: Option<&str>) -> (rows:
        Vec<ListEntry>)
        ensures
            rows@.len() == self@.len(),
            forall|i: int|
                0 <= i < self@.len() ==> {
                    let row = #[trigger] rows@[i];
                    &&& row.name@ == self@[i].0@
                    &&& row.url@ == self@[i].1.registry@
                    &&& row.is_global == (current_global matches Option::Some(g) && g@
                        == self@[i].0@)
                    &&& row.is_local == (current_local matches Option::Some(l) && l@
                        == self@[i].0@)
                },
    {
        let mut rows: Vec<ListEntry> = Vec::new();
        let mut i: usize = 0;
        while i < self.registries.len()
            invariant
                i <= self@.len(),
                rows@.len() == i,
                forall|j: int|
                    0 <= j < i ==> {
                        let row = #[trigger] rows@[j];
                        &&& row.name@ == self@[j].0@
                        &&& row.url@ == self@[j].1.registry@
                        &&& row.is_global == (current_global matches Option::Some(g) && g@
                            == self@[j].0@)
                        &&& row.is_local == (current_local matches Option::Some(l) && l@
                            == self@[j].0@)
                    },
            decreases self@.len() - i,
        {
            let name = self.registries[i].0.clone();
            let url = self.registries[i].1.registry.clone();
            let is_global = match current_global {
                Option::Some(g) => str_eq(g, name.as_str()),
                Option::None => false,
            };
            let is_local = match current_local {
                Option::Some(l) => str_eq(l, name.as_str()),
                Option::None => false,
            };
            rows.push(ListEntry { name, url, is_global, is_local });
            i = i + 1;
        }
        rows
    }
}

/// The first catalog entry whose endpoint URL is `url`, by name.
pub open spec fn name_for_url(s: Seq<(String, Registry)>, url: Seq<char>) -> Option<Seq<char>>
    decreases s.len(),
{
    if s.len() == 0 {
        Option::None
    } else if s[0].1.registry@ == url {
        Option::Some(s[0].0@)
    } else {
        name_for_url(s.drop_first(), url)
    }
}

impl Store {
    /// The name configured by the given `.npmrc` content: read which
    /// registry URL the content sets, then find the first catalog entry
    /// carrying that URL. `None` when the content sets no registry or the
    /// URL belongs to no configured registry.
    pub fn get_current_registry(&self, npmrc: &str) -> (r: Option<String>)
        ensures
            ({
                match spec_find_registry_url(npmrc@) {
                    Option::Some(url) => match name_for_url(self@, url) {
                        Option::Some(nm) => r matches Option::Some(s) && s@ == nm,
                        Option::None => r is None,
                    },
                    Option::None => r is None,
                }
            }),
    {
        match find_registry_url(npmrc) {
            Option::Some(url) => {
                proof {
                    assert(spec_find_registry_url(npmrc@) == Option::Some(url@));
                }
                let mut i: usize = 0;
                proof {
                    assert(self@.skip(0) =~= self@);
                }
                while i < self.registries.len()
                    invariant
                        i <= self@.len(),
                        spec_find_registry_url(npmrc@) == Option::Some(url@),
                        name_for_url(self@, url@) == name_for_url(self@.skip(i as int), url@),
                    decreases self@.len() - i,
                {
                    proof {
                        assert(self@.skip(i as int)[0] == self@[i as int]);
                    }
                    if str_eq(self.registries[i].1.registry.as_str(), url.as_str()) {
                        let name = self.registries[i].0.clone();
                        proof {
                            assert(self@.skip(i as int).len() > 0);
                            assert(name_for_url(self@.skip(i as int), url@) == Option::Some(
                                self@[i as int].0@,
                            ));
                            assert(spec_find_registry_url(npmrc@) == Option::Some(url@));
                            assert(name_for_url(self@, spec_find_registry_url(npmrc@)->Some_0)
                                == Option::Some(name@));
                        }
                        return Option::Some(name);
                    }
                    proof {
                        assert(self@.skip(i as int).drop_first() =~= self@.skip(i as int + 1));
                    }
                    i = i + 1;
                }
                Option::None
            },
            Option::None => Option::None,
        }
    }
}

/// One row of the registry listing: the registry, and whether it is the
/// current global or local registry.
pub struct ListEntry {
    pub name: String,
    pub url: String,
    pub is_global: bool,
    pub is_local: bool,
}

/// The built-in catalog written on first run: npm, yarn, taobao and
/// tencent, each with its endpoint and homepage.
pub open spec fn default_registries() -> Map<Seq<char>, RegistryView> {
    Map::empty().insert(
        "npm"@,
        RegistryView {
            registry: "https://registry.npmjs.org/"@,
            home: Option::Some("https://www.npmjs.org"@),
        },
    ).insert(
        "yarn"@,
        RegistryView {
            registry: "https://registry.yarnpkg.com/"@,
            home: Option::Some("https://yarnpkg.com"@),
        },
    ).insert(
        "taobao"@,
        RegistryView {
            registry: "https://registry.npmmirror.com/"@,
            home: Option::Some("https://npmmirror.com/"@),
        },
    ).insert(
        "tencent"@,
        RegistryView {
            registry: "https://mirrors.cloud.tencent.com/npm/"@,
            home: Option::Some("https://mirrors.cloud.tencent.com/npm/"@),
        },
    )
}

fn default_entry(name: &str, registry: &str, home: &str) -> (r: (String, Registry))
    ensures
        r.0@ == name@,
        r.1@ == (RegistryView { registry: registry@, home: Option::Some(home@) }),
{
    let reg = Registry {
        registry: String::from_str(registry),
        home: Option::Some(String::from_str(home)),
    };
    (String::from_str(name), reg)
}

/// Build the built-in default catalog.
pub fn create_default_store() -> (s: Store)
    ensures
        s.wf(),
        s@.len() == 4,
        s.as_map() == default_registries(),
{
    let mut s = Store::new();
    let e = default_entry("npm", "https://registry.npmjs.org/", "https://www.npmjs.org");
    s.add_registry(e.0, e.1);
    proof {
        assert("yarn"@ != "npm"@) by {
            reveal_strlit("yarn");
            reveal_strlit("npm");
            assert("yarn"@.len() == 4);
            assert("npm"@.len() == 3);
        }
        assert(!s.as_map().contains_key("yarn"@));
    }
    let e = default_entry("yarn", "https://registry.yarnpkg.com/", "https://yarnpkg.com");
    s.add_registry(e.0, e.1);
    proof {
        assert("taobao"@ != "npm"@) by {
            reveal_strlit("taobao");
            reveal_strlit("npm");
            assert("taobao"@.len() == 6);
            assert("npm"@.len() == 3);
        }
        assert("taobao"@ != "yarn"@) by {
            reveal_strlit("taobao");
            reveal_strlit("yarn");
            assert("taobao"@.len() == 6);
            assert("yarn"@.len() == 4);
        }
        assert(!s.as_map().contains_key("taobao"@));
    }
    let e = default_entry("taobao", "https://registry.npmmirror.com/", "https://npmmirror.com/");
    s.add_registry(e.0, e.1);
    proof {
        assert("tencent"@ != "npm"@) by {
            reveal_strlit("tencent");
            reveal_strlit("npm");
            assert("tencent"@.len() == 7);
            assert("npm"@.len() == 3);
        }
        assert("tencent"@ != "yarn"@) by {
            reveal_strlit("tencent");
            reveal_strlit("yarn");
            assert("tencent"@.len() == 7);
            assert("yarn"@.len() == 4);
        }
        assert("tencent"@ != "taobao"@) by {
            reveal_strlit("tencent");
            reveal_strlit("taobao");
            assert("tencent"@.len() == 7);
            assert("taobao"@.len() == 6);
        }
        assert(!s.as_map().contains_key("tencent"@));
    }
    let e = default_entry(
        "tencent",
        "https://mirrors.cloud.tencent.com/npm/",
        "https://mirrors.cloud.tencent.com/npm/",
    );
    s.add_registry(e.0, e.1);
    proof {
        assert(s.as_map() =~= default_registries());
    }
    s
}

} // verus!
