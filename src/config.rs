//! Per-project settings and the registry of named projects.

use vstd::prelude::*;
use crate::text::{
    concat, ends_with, lemma_text_lt_irreflexive, lemma_text_lt_total, lemma_text_lt_transitive,
    str_eq, text_less, text_lt,
};

verus! {

pub struct StorageConfig {
    /// Where the index directory lives; inside the project when absent.
    pub path: Option<String>,
    /// Largest index size in bytes; 0 for no limit.
    pub max_size_bytes: u64,
}

pub struct ResourceConfig {
    /// Threads for walking; 0 for half the processors.
    pub max_threads: usize,
    pub max_memory_bytes: u64,
    /// Files written per transaction.
    pub batch_size: usize,
}

pub enum EmbedBackend {
    Ollama { model: String, url: String },
    OpenAi { model: String },
    Disabled,
}

pub struct EmbedConfig {
    pub backend: EmbedBackend,
    pub max_concurrent: usize,
}

pub struct Config {
    pub storage: StorageConfig,
    pub resources: ResourceConfig,
    pub embed: EmbedConfig,
}

/// Half the processors, and at least one.
pub open spec fn half_of_cpus(num_cpus: usize) -> usize {
    if num_cpus / 2 < 1 {
        1
    } else {
        num_cpus / 2
    }
}

/// `base` joined with a relative component, as `Path::join` does it.
pub open spec fn join_path(base: Seq<char>, part: Seq<char>) -> Seq<char> {
    if base.len() == 0 {
        part
    } else if base.last() == '/' {
        base + part
    } else {
        base + seq!['/'] + part
    }
}

pub fn join_relative(base: &str, part: &str) -> (r: String)
    ensures
        r@ == join_path(base@, part@),
{
    if base.is_empty() {
        part.to_owned()
    } else if ends_with(base, "/") {
        proof {
            reveal_strlit("/");
            assert(base@.subrange(base@.len() - 1, base@.len() as int)[0] == base@.last());
        }
        concat(base, part)
    } else {
        proof {
            reveal_strlit("/");
            if base@.last() == '/' {
                assert(base@.subrange(base@.len() - 1, base@.len() as int) =~= "/"@);
            }
        }
        let with_slash = concat(base, "/");
        let r = concat(with_slash.as_str(), part);
        assert(r@ =~= base@ + seq!['/'] + part@);
        r
    }
}

impl Config {
    /// The settings used when a project has no configuration file, on a
    /// machine with `num_cpus` processors.
    pub fn defaults_for(num_cpus: usize) -> (r: Self)
        ensures
            r.storage.path is None,
            r.storage.max_size_bytes == 0,
            r.resources.max_threads == half_of_cpus(num_cpus),
            r.resources.max_memory_bytes == 256 * 1024 * 1024,
            r.resources.batch_size == 500,
            r.embed.backend is Disabled,
            r.embed.max_concurrent == 4,
    {
        Config {
            storage: StorageConfig { path: None, max_size_bytes: 0 },
            resources: ResourceConfig {
                max_threads: if num_cpus / 2 < 1 { 1 } else { num_cpus / 2 },
                max_memory_bytes: 256 * 1024 * 1024,
                batch_size: 500,
            },
            embed: EmbedConfig { backend: EmbedBackend::Disabled, max_concurrent: 4 },
        }
    }

    /// The index directory: the configured one, else `.booger` in the project.
    pub fn storage_dir(&self, project_root: &str) -> (r: String)
        ensures
            r@ == match self.storage.path {
                Some(p) => p@,
                None => join_path(project_root@, ".booger"@),
            },
    {
        match &self.storage.path {
            Some(p) => p.clone(),
            None => join_relative(project_root, ".booger"),
        }
    }

    /// The walking threads: the configured count, or for 0 half the
    /// `num_cpus` processors and at least one.
    pub fn effective_threads(&self, num_cpus: usize) -> (r: usize)
        ensures
            r == if self.resources.max_threads == 0 {
                half_of_cpus(num_cpus)
            } else {
                self.resources.max_threads
            },
    {
        if self.resources.max_threads == 0 {
            if num_cpus / 2 < 1 { 1 } else { num_cpus / 2 }
        } else {
            self.resources.max_threads
        }
    }
}

/// A registered project.
pub struct ProjectEntry {
    pub path: String,
}

/// Short names of projects, each mapped to its directory.
pub struct ProjectRegistry {
    pub projects: Vec<(String, ProjectEntry)>,
}

impl ProjectRegistry {
    /// Each name occurs once, and names come in ascending order.
    pub open spec fn wf(&self) -> bool {
        &&& forall|i: int, j: int|
            0 <= i < j < self.projects@.len() ==> #[trigger] self.projects@[i].0@
                != #[trigger] self.projects@[j].0@
        &&& forall|i: int, j: int|
            0 <= i < j < self.projects@.len() ==> text_lt(#[trigger] self.projects@[i].0@,
                #[trigger] self.projects@[j].0@)
    }

    /// The registry as a map from name to directory.
    pub open spec fn view(&self) -> Map<Seq<char>, Seq<char>> {
        map_of(self.projects@)
    }

    pub fn new() -> (r: Self)
        ensures
            r.wf(),
            r.view() == Map::<Seq<char>, Seq<char>>::empty(),
    {
        let r = ProjectRegistry { projects: Vec::new() };
        assert(r.view() =~= Map::<Seq<char>, Seq<char>>::empty());
        r
    }

    fn position(&self, name: &str) -> (r: Option<usize>)
        requires
            self.wf(),
        ensures
            match r {
                Some(i) => i < self.projects@.len() && self.projects@[i as int].0@ == name@,
                None => forall|i: int| 0 <= i < self.projects@.len() ==> #[trigger] self.projects@[i].0@ != name@,
            },
    {
        let mut i: usize = 0;
        while i < self.projects.len()
            invariant
                i <= self.projects@.len(),
                forall|k: int| 0 <= k < i ==> #[trigger] self.projects@[k].0@ != name@,
            decreases self.projects@.len() - i,
        {
            if str_eq(self.projects[i].0.as_str(), name) {
                return Some(i);
            }
            i = i + 1;
        }
        None
    }

    proof fn lemma_lookup(&self, i: int)
        requires
            self.wf(),
            0 <= i < self.projects@.len(),
        ensures
            self.view().contains_key(self.projects@[i].0@),
            self.view()[self.projects@[i].0@] == self.projects@[i].1.path@,
    {
        lemma_lookup_seq(self.projects@, i);
    }

    /// Register `name` for `path`, replacing an earlier entry of that name.
    pub fn add(&mut self, name: String, path: String)
        requires
            old(self).wf(),
        ensures
            final(self).wf(),
            final(self).view() == old(self).view().insert(name@, path@),
    {
        let ghost before = self.view();
        match self.position(name.as_str()) {
            Some(i) => {
                let ghost pre = self.projects@;
                let old_entry = self.projects.remove(i);
                let ghost nm = name@;
                let ghost pv = path@;
                self.projects.insert(i, (name, ProjectEntry { path }));
                proof {
                    assert(self.projects@ =~= pre.update(i as int, self.projects@[i as int]));
                    assert(self.projects@[i as int].0@ == nm);
                    assert(self.projects@[i as int].1.path@ == pv);
                    assert forall|a: int, b: int|
                        0 <= a < b < self.projects@.len() implies #[trigger] self.projects@[a].0@
                        != #[trigger] self.projects@[b].0@ by {
                        assert(pre[a].0@ != pre[b].0@);
                    }
                    assert forall|a: int, b: int|
                        0 <= a < b < self.projects@.len() implies text_lt(#[trigger] self.projects@[a].0@,
                        #[trigger] self.projects@[b].0@) by {
                        assert(text_lt(pre[a].0@, pre[b].0@));
                    }
                    assert forall|k: Seq<char>| #[trigger] self.view().contains_key(k) == before.insert(nm, pv).contains_key(k) by {
                        if before.contains_key(k) && k != nm {
                            let j = choose|j: int| 0 <= j < pre.len() && #[trigger] pre[j].0@ == k;
                            assert(j != i);
                            assert(self.projects@[j].0@ == k);
                        }
                        if k == nm {
                            assert(self.projects@[i as int].0@ == k);
                        }
                        if self.view().contains_key(k) {
                            let j = choose|j: int| 0 <= j < self.projects@.len() && #[trigger] self.projects@[j].0@ == k;
                            if j != i {
                                assert(pre[j].0@ == k);
                            }
                        }
                    }
                    assert forall|k: Seq<char>| #[trigger] self.view().contains_key(k) implies self.view()[k] == before.insert(nm, pv)[k] by {
                        let j = choose|j: int| 0 <= j < self.projects@.len() && #[trigger] self.projects@[j].0@ == k;
                        self.lemma_lookup(j);
                        if j != i {
                            assert(pre[j] == self.projects@[j]);
                            lemma_lookup_seq(pre, j);
                        }
                    }
                    assert(self.view() =~= before.insert(nm, pv));
                }
            },
            None => {
                let ghost pre = self.projects@;
                let ghost nm = name@;
                let ghost pv = path@;
                let mut p: usize = 0;
                while p < self.projects.len() && !text_less(name.as_str(), self.projects[p].0.as_str())
                    invariant
                        p <= self.projects@.len(),
                        self.projects@ == pre,
                        name@ == nm,
                        forall|k: int| 0 <= k < p ==> !text_lt(nm, #[trigger] pre[k].0@),
                    decreases self.projects@.len() - p,
                {
                    p = p + 1;
                }
                self.projects.insert(p, (name, ProjectEntry { path }));
                proof {
                    let q = self.projects@;
                    let pi = p as int;
                    assert(q.len() == pre.len() + 1);
                    assert(q[pi].0@ == nm && q[pi].1.path@ == pv);
                    assert forall|j: int| 0 <= j < q.len() && j != pi implies #[trigger] q[j] == pre[if j < pi { j } else { j - 1 }] by {}
                    assert forall|k: int| 0 <= k < pi implies text_lt(#[trigger] pre[k].0@, nm) by {
                        assert(pre[k].0@ != nm);
                        lemma_text_lt_total(pre[k].0@, nm);
                    }
                    assert forall|a: int, b: int|
                        0 <= a < b < q.len() implies text_lt(#[trigger] q[a].0@, #[trigger] q[b].0@) by {
                        if b < pi {
                            assert(q[a] == pre[a] && q[b] == pre[b]);
                        } else if b == pi {
                            assert(q[a] == pre[a]);
                        } else if a < pi {
                            assert(q[a] == pre[a] && q[b] == pre[b - 1]);
                        } else if a == pi {
                            assert(q[b] == pre[b - 1]);
                            assert(text_lt(nm, pre[pi].0@));
                            if b - 1 > pi {
                                assert(text_lt(pre[pi].0@, pre[b - 1].0@));
                                lemma_text_lt_transitive(nm, pre[pi].0@, pre[b - 1].0@);
                            }
                        } else {
                            assert(q[a] == pre[a - 1] && q[b] == pre[b - 1]);
                        }
                    }
                    assert forall|a: int, b: int|
                        0 <= a < b < q.len() implies #[trigger] q[a].0@ != #[trigger] q[b].0@ by {
                        assert(text_lt(q[a].0@, q[b].0@));
                        lemma_text_lt_irreflexive(q[a].0@);
                    }
                    assert forall|k: Seq<char>| #[trigger] self.view().contains_key(k) == before.insert(nm, pv).contains_key(k) by {
                        if before.contains_key(k) {
                            let j = choose|j: int| 0 <= j < pre.len() && #[trigger] pre[j].0@ == k;
                            let j2 = if j < pi { j } else { j + 1 };
                            assert(q[j2] == pre[j]);
                        }
                        if k == nm {
                            assert(q[pi].0@ == k);
                        }
                        if self.view().contains_key(k) {
                            let j = choose|j: int| 0 <= j < q.len() && #[trigger] q[j].0@ == k;
                            if j != pi {
                                let j2 = if j < pi { j } else { j - 1 };
                                assert(pre[j2].0@ == k);
                            }
                        }
                    }
                    assert forall|k: Seq<char>| #[trigger] self.view().contains_key(k) implies self.view()[k] == before.insert(nm, pv)[k] by {
                        let j = choose|j: int| 0 <= j < q.len() && #[trigger] q[j].0@ == k;
                        self.lemma_lookup(j);
                        if j != pi {
                            let j2 = if j < pi { j } else { j - 1 };
                            lemma_lookup_seq(pre, j2);
                        }
                    }
                    assert(self.view() =~= before.insert(nm, pv));
                }
            },
        }
    }

    /// Forget `name`; whether it was registered.
    pub fn remove(&mut self, name: &str) -> (r: bool)
        requires
            old(self).wf(),
        ensures
            final(self).wf(),
            r == old(self).view().contains_key(name@),
            final(self).view() == old(self).view().remove(name@),
    {
        let ghost before = self.view();
        match self.position(name) {
            Some(i) => {
                let ghost pre = self.projects@;
                proof { self.lemma_lookup(i as int); }
                self.projects.remove(i);
                proof {
                    assert forall|a: int, b: int|
                        0 <= a < b < self.projects@.len() implies #[trigger] self.projects@[a].0@
                        != #[trigger] self.projects@[b].0@ by {
                        let a2 = if a < i { a } else { a + 1 };
                        let b2 = if b < i { b } else { b + 1 };
                        assert(pre[a2].0@ != pre[b2].0@);
                    }
                    assert forall|a: int, b: int|
                        0 <= a < b < self.projects@.len() implies text_lt(#[trigger] self.projects@[a].0@,
                        #[trigger] self.projects@[b].0@) by {
                        let a2 = if a < i { a } else { a + 1 };
                        let b2 = if b < i { b } else { b + 1 };
                        assert(text_lt(pre[a2].0@, pre[b2].0@));
                    }
                    assert forall|k: Seq<char>| #[trigger] self.view().contains_key(k) == before.remove(name@).contains_key(k) by {
                        if before.contains_key(k) && k != name@ {
                            let j = choose|j: int| 0 <= j < pre.len() && #[trigger] pre[j].0@ == k;
                            assert(j != i);
                            let j2 = if j < i { j } else { j - 1 };
                            assert(self.projects@[j2].0@ == k);
                        }
                        if self.view().contains_key(k) {
                            let j = choose|j: int| 0 <= j < self.projects@.len() && #[trigger] self.projects@[j].0@ == k;
                            let j2 = if j < i { j } else { j + 1 };
                            assert(pre[j2].0@ == k);
                            assert(pre[i as int].0@ != pre[j2].0@ || i == j2);
                        }
                    }
                    assert forall|k: Seq<char>| #[trigger] self.view().contains_key(k) implies self.view()[k] == before.remove(name@)[k] by {
                        let j = choose|j: int| 0 <= j < self.projects@.len() && #[trigger] self.projects@[j].0@ == k;
                        self.lemma_lookup(j);
                        let j2 = if j < i { j } else { j + 1 };
                        lemma_lookup_seq(pre, j2);
                    }
                    assert(self.view() =~= before.remove(name@));
                }
                true
            },
            None => {
                proof {
                    assert(!before.contains_key(name@));
                    assert(self.view() =~= before.remove(name@));
                }
                false
            },
        }
    }

    /// A project's directory: the registered one for a known name, else
    /// the argument itself when it names a directory (`is_dir`).
    pub fn resolve(&self, name_or_path: &str, is_dir: bool) -> (r: Option<String>)
        requires
            self.wf(),
        ensures
            self.view().contains_key(name_or_path@) ==> r is Some && r->0@ == self.view()[name_or_path@],
            !self.view().contains_key(name_or_path@) ==> (r is Some <==> is_dir),
            !self.view().contains_key(name_or_path@) && is_dir ==> r->0@ == name_or_path@,
    {
        match self.position(name_or_path) {
            Some(i) => {
                proof { self.lemma_lookup(i as int); }
                Some(self.projects[i].1.path.clone())
            },
            None => {
                if is_dir {
                    Some(name_or_path.to_owned())
                } else {
                    None
                }
            },
        }
    }
}

pub open spec fn map_of(s: Seq<(String, ProjectEntry)>) -> Map<Seq<char>, Seq<char>> {
    Map::new(
        |k: Seq<char>| exists|i: int| 0 <= i < s.len() && #[trigger] s[i].0@ == k,
        |k: Seq<char>| {
            let i = choose|i: int| 0 <= i < s.len() && #[trigger] s[i].0@ == k;
            s[i].1.path@
        },
    )
}

/// In a list with unique names, each name maps to its own entry's path.
proof fn lemma_lookup_seq(s: Seq<(String, ProjectEntry)>, i: int)
    requires
        0 <= i < s.len(),
        forall|a: int, b: int| 0 <= a < b < s.len() ==> #[trigger] s[a].0@ != #[trigger] s[b].0@,
    ensures
        map_of(s).contains_key(s[i].0@),
        map_of(s)[s[i].0@] == s[i].1.path@,
{
    let k = s[i].0@;
    assert(map_of(s).contains_key(k));
    let j = choose|j: int| 0 <= j < s.len() && #[trigger] s[j].0@ == k;
    if j != i {
        if i < j {
            assert(s[i].0@ != s[j].0@);
        } else {
            assert(s[j].0@ != s[i].0@);
        }
    }
}

} // verus!
