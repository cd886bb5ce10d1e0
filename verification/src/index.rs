//! The tag index: which test files carry which tags and Minecraft ids.
use vstd::prelude::*;

use crate::string_map::{first_index, insert_pairs, law_get_after_insert, lemma_first_index, lookup};
use crate::text::{push_str, str_eq};

verus! {

/// Index entries: each key (a tag or a Minecraft id) with its test paths.
pub type IndexView = Seq<(Seq<char>, Seq<Seq<char>>)>;

/// The tag index of a test directory. `hash` identifies the set of files
/// (and their modification times) it was built from; `index` maps each tag
/// and Minecraft id to the paths of the tests that carry it, keys in the
/// order they were first added; `index_name` is the file the index is kept in.
#[derive(Debug, Clone)]
pub struct Index {
    pub hash: u64,
    pub index: Vec<(String, Vec<String>)>,
    pub index_name: String,
}

pub open spec fn path_texts(v: Seq<String>) -> Seq<Seq<char>> {
    v.map_values(|s: String| s@)
}

pub open spec fn index_view(v: Seq<(String, Vec<String>)>) -> IndexView {
    v.map_values(|e: (String, Vec<String>)| (e.0@, path_texts(e.1@)))
}

/// What `entry(key).or_default().push(path)` makes of the index.
pub open spec fn push_under(s: IndexView, key: Seq<char>, path: Seq<char>) -> IndexView {
    let i = first_index(s, key);
    if i >= 0 {
        s.update(i, (key, s[i].1.push(path)))
    } else {
        s.push((key, seq![path]))
    }
}

/// `path` pushed under each of `keys`, in order.
pub open spec fn push_under_all(s: IndexView, keys: Seq<Seq<char>>, path: Seq<char>) -> IndexView
    decreases keys.len(),
{
    if keys.len() == 0 {
        s
    } else {
        push_under(push_under_all(s, keys.drop_last(), path), keys.last(), path)
    }
}

/// What adding one test file makes of the index: its path under each of its
/// tags, then under each of its Minecraft ids, then, when it has no tags,
/// under the default tag.
pub open spec fn with_test(
    s: IndexView,
    path: Seq<char>,
    tags: Seq<Seq<char>>,
    ids: Seq<Seq<char>>,
    default_tag: Seq<char>,
) -> IndexView {
    let a = push_under_all(push_under_all(s, tags, path), ids, path);
    if tags.len() == 0 {
        push_under(a, default_tag, path)
    } else {
        a
    }
}

/// A parsed test file as the index sees it: its path, its tags and its
/// Minecraft ids.
pub type FileEntryView = (Seq<char>, Seq<Seq<char>>, Seq<Seq<char>>);

pub open spec fn file_entry_views(v: Seq<(String, Vec<String>, Vec<String>)>) -> Seq<FileEntryView> {
    v.map_values(|f: (String, Vec<String>, Vec<String>)| (f.0@, path_texts(f.1@), path_texts(f.2@)))
}

/// What adding test files in order makes of the index.
pub open spec fn with_tests(s: IndexView, files: Seq<FileEntryView>, default_tag: Seq<char>) -> IndexView
    decreases files.len(),
{
    if files.len() == 0 {
        s
    } else {
        let f = files.last();
        with_test(with_tests(s, files.drop_last(), default_tag), f.0, f.1, f.2, default_tag)
    }
}

/// `ps` appended to `acc`, leaving out each path already there.
pub open spec fn add_unseen(acc: Seq<Seq<char>>, ps: Seq<Seq<char>>) -> Seq<Seq<char>>
    decreases ps.len(),
{
    if ps.len() == 0 {
        acc
    } else {
        let a = add_unseen(acc, ps.drop_last());
        if a.contains(ps.last()) {
            a
        } else {
            a.push(ps.last())
        }
    }
}

/// The paths under a key, none for an unknown key.
pub open spec fn paths_under(s: IndexView, key: Seq<char>) -> Seq<Seq<char>> {
    match lookup(s, key) {
        Some(ps) => ps,
        None => Seq::empty(),
    }
}

/// The test paths selected by a scope: the paths of each scope tag in turn,
/// each path once, in the order first met.
pub open spec fn scope_paths(s: IndexView, scope: Seq<Seq<char>>) -> Seq<Seq<char>>
    decreases scope.len(),
{
    if scope.len() == 0 {
        Seq::empty()
    } else {
        add_unseen(scope_paths(s, scope.drop_last()), paths_under(s, scope.last()))
    }
}

fn contains_text(v: &Vec<String>, p: &str) -> (r: bool)
    ensures
        r == path_texts(v@).contains(p@),
{
    let mut i: usize = 0;
    while i < v.len()
        invariant
            i <= v.len(),
            forall|k: int| 0 <= k < i ==> v@[k]@ != p@,
        decreases v.len() - i,
    {
        if str_eq(v[i].as_str(), p) {
            assert(path_texts(v@)[i as int] == p@);
            return true;
        }
        i = i + 1;
    }
    assert(!path_texts(v@).contains(p@)) by {
        if path_texts(v@).contains(p@) {
            let k = choose|k: int| 0 <= k < path_texts(v@).len() && path_texts(v@)[k] == p@;
            assert(v@[k]@ == p@);
        }
    }
    false
}

impl Index {
    pub open spec fn entries(&self) -> IndexView {
        index_view(self.index@)
    }

    /// An empty index kept in the file `index_name`.
    pub fn empty(index_name: &str) -> (r: Self)
        ensures
            r.hash == 0,
            r.entries().len() == 0,
            r.index_name@ == index_name@,
    {
        let mut name = String::new();
        push_str(&mut name, index_name);
        let r = Index { hash: 0, index: Vec::new(), index_name: name };
        assert(r.entries() =~= Seq::<(Seq<char>, Seq<Seq<char>>)>::empty());
        r
    }

    /// Whether the index was built from the files whose hash is `current_hash`.
    pub fn verify(&self, current_hash: u64) -> (r: bool)
        ensures
            r == (self.hash == current_hash),
    {
        self.hash == current_hash
    }

    /// Drops every entry, as before a rebuild.
    pub fn clear(&mut self)
        ensures
            final(self).entries().len() == 0,
            final(self).hash == old(self).hash,
            final(self).index_name == old(self).index_name,
    {
        self.index = Vec::new();
        assert(self.entries() =~= Seq::<(Seq<char>, Seq<Seq<char>>)>::empty());
    }

    /// Adds `path` under `key`.
    fn push_path(&mut self, key: &str, path: &str)
        ensures
            final(self).entries() == push_under(old(self).entries(), key@, path@),
            final(self).hash == old(self).hash,
            final(self).index_name == old(self).index_name,
    {
        let ghost s = self.entries();
        proof {
            lemma_first_index(s, key@);
        }
        let mut i: usize = 0;
        while i < self.index.len()
            invariant
                i <= self.index.len(),
                s == index_view(self.index@),
                s == old(self).entries(),
                self.hash == old(self).hash,
                self.index_name == old(self).index_name,
                forall|j: int| 0 <= j < i ==> s[j].0 != key@,
                -1 <= first_index(s, key@) < s.len(),
                first_index(s, key@) >= 0 ==> s[first_index(s, key@)].0 == key@,
                forall|j: int| 0 <= j < s.len() && (first_index(s, key@) < 0 || j < first_index(s, key@)) ==> s[j].0 != key@,
            decreases self.index.len() - i,
        {
            assert(s[i as int].0 == self.index@[i as int].0@);
            if str_eq(self.index[i].0.as_str(), key) {
                assert(first_index(s, key@) == i);
                let mut entry = (String::new(), Vec::new());
                std::mem::swap(&mut entry, &mut self.index[i]);
                let ghost before_paths = entry.1@;
                let mut p = String::new();
                push_str(&mut p, path);
                entry.1.push(p);
                assert(path_texts(entry.1@) =~= path_texts(before_paths).push(path@));
                self.index.set(i, entry);
                assert(index_view(self.index@) =~= s.update(i as int, (key@, s[i as int].1.push(path@))));
                return;
            }
            i = i + 1;
        }
        assert(first_index(s, key@) < 0);
        let mut k = String::new();
        push_str(&mut k, key);
        let mut p = String::new();
        push_str(&mut p, path);
        let mut paths: Vec<String> = Vec::new();
        paths.push(p);
        assert(path_texts(paths@) =~= seq![path@]);
        self.index.push((k, paths));
        assert(index_view(self.index@) =~= s.push((key@, seq![path@])));
    }

    fn push_path_under_all(&mut self, keys: &Vec<String>, path: &str)
        ensures
            final(self).entries() == push_under_all(old(self).entries(), path_texts(keys@), path@),
            final(self).hash == old(self).hash,
            final(self).index_name == old(self).index_name,
    {
        let mut i: usize = 0;
        while i < keys.len()
            invariant
                i <= keys.len(),
                self.entries() == push_under_all(old(self).entries(), path_texts(keys@.take(i as int)), path@),
                self.hash == old(self).hash,
                self.index_name == old(self).index_name,
            decreases keys.len() - i,
        {
            self.push_path(keys[i].as_str(), path);
            assert(path_texts(keys@.take(i + 1)).drop_last() =~= path_texts(keys@.take(i as int)));
            i = i + 1;
        }
        assert(keys@.take(i as int) =~= keys@);
    }

    /// Adds one test file: its path under each of its tags, then under each
    /// of its Minecraft ids, then, when it has no tags, under `default_tag`.
    pub fn add_test(&mut self, path: &str, tags: &Vec<String>, minecraft_ids: &Vec<String>, default_tag: &str)
        ensures
            final(self).entries() == with_test(
                old(self).entries(),
                path@,
                path_texts(tags@),
                path_texts(minecraft_ids@),
                default_tag@,
            ),
            final(self).hash == old(self).hash,
            final(self).index_name == old(self).index_name,
    {
        self.push_path_under_all(tags, path);
        self.push_path_under_all(minecraft_ids, path);
        if tags.len() == 0 {
            self.push_path(default_tag, path);
        }
    }

    /// Adds test files in order, each as `add_test` adds it.
    pub fn add_tests(&mut self, files: &Vec<(String, Vec<String>, Vec<String>)>, default_tag: &str)
        ensures
            final(self).entries() == with_tests(old(self).entries(), file_entry_views(files@), default_tag@),
            final(self).hash == old(self).hash,
            final(self).index_name == old(self).index_name,
    {
        let ghost s0 = self.entries();
        let mut i: usize = 0;
        assert(file_entry_views(files@).take(0) =~= Seq::<FileEntryView>::empty());
        while i < files.len()
            invariant
                i <= files.len(),
                self.entries() == with_tests(s0, file_entry_views(files@).take(i as int), default_tag@),
                self.hash == old(self).hash,
                self.index_name == old(self).index_name,
            decreases files.len() - i,
        {
            let f = &files[i];
            self.add_test(f.0.as_str(), &f.1, &f.2, default_tag);
            assert(file_entry_views(files@).take(i + 1).drop_last() =~= file_entry_views(files@).take(i as int));
            i = i + 1;
        }
        assert(file_entry_views(files@).take(files.len() as int) =~= file_entry_views(files@));
    }

    /// The test paths under the tags of `scope`, each path once, in the
    /// order first met; unknown tags select nothing.
    pub fn get_test_paths_from_scopes(&self, scope: &Vec<String>) -> (r: Vec<String>)
        ensures
            path_texts(r@) == scope_paths(self.entries(), path_texts(scope@)),
    {
        let ghost s = self.entries();
        let mut out: Vec<String> = Vec::new();
        let mut i: usize = 0;
        while i < scope.len()
            invariant
                i <= scope.len(),
                s == self.entries(),
                path_texts(out@) == scope_paths(s, path_texts(scope@.take(i as int))),
            decreases scope.len() - i,
        {
            let tag = scope[i].as_str();
            assert(path_texts(scope@.take(i + 1)).drop_last() =~= path_texts(scope@.take(i as int)));
            assert(path_texts(scope@.take(i + 1)).last() == tag@);
            let ghost acc0 = path_texts(out@);
            proof {
                lemma_first_index(s, tag@);
            }
            let mut found: Option<usize> = None;
            let mut k: usize = 0;
            while k < self.index.len()
                invariant
                    k <= self.index.len(),
                    s == index_view(self.index@),
                    found matches Some(f) ==> f < self.index.len() && f == first_index(s, tag@),
                    found is None ==> forall|j: int| 0 <= j < k ==> s[j].0 != tag@,
                    -1 <= first_index(s, tag@) < s.len(),
                    first_index(s, tag@) >= 0 ==> s[first_index(s, tag@)].0 == tag@,
                    forall|j: int| 0 <= j < s.len() && (first_index(s, tag@) < 0 || j < first_index(s, tag@)) ==> s[j].0 != tag@,
                decreases self.index.len() - k,
            {
                if found.is_none() {
                    assert(s[k as int].0 == self.index@[k as int].0@);
                    if str_eq(self.index[k].0.as_str(), tag) {
                        found = Some(k);
                    }
                }
                k = k + 1;
            }
            match found {
                Some(f) => {
                    let paths = &self.index[f].1;
                    let ghost ps = path_texts(paths@);
                    assert(paths_under(s, tag@) == ps);
                    let mut j: usize = 0;
                    while j < paths.len()
                        invariant
                            j <= paths.len(),
                            ps == path_texts(paths@),
                            path_texts(out@) == add_unseen(acc0, ps.take(j as int)),
                        decreases paths.len() - j,
                    {
                        assert(ps.take(j + 1).drop_last() =~= ps.take(j as int));
                        assert(ps.take(j + 1).last() == paths@[j as int]@);
                        if !contains_text(&out, paths[j].as_str()) {
                            let ghost before = out@;
                            out.push(paths[j].clone());
                            assert(path_texts(out@) =~= path_texts(before).push(paths@[j as int]@));
                        }
                        j = j + 1;
                    }
                    assert(ps.take(j as int) =~= ps);
                },
                None => {
                    assert(first_index(s, tag@) < 0);
                    assert(paths_under(s, tag@) =~= Seq::<Seq<char>>::empty());
                },
            }
            i = i + 1;
        }
        assert(scope@.take(i as int) =~= scope@);
        out
    }
}

/// `add_unseen` adds no path twice.
proof fn lemma_add_unseen_no_duplicates(acc: Seq<Seq<char>>, ps: Seq<Seq<char>>)
    requires
        acc.no_duplicates(),
    ensures
        add_unseen(acc, ps).no_duplicates(),
    decreases ps.len(),
{
    if ps.len() > 0 {
        lemma_add_unseen_no_duplicates(acc, ps.drop_last());
        let a = add_unseen(acc, ps.drop_last());
        if !a.contains(ps.last()) {
            assert forall|i: int, j: int| 0 <= i < j < a.push(ps.last()).len() implies a.push(ps.last())[i] != a.push(
                ps.last(),
            )[j] by {
                if j == a.len() {
                    assert(a[i] != ps.last());
                }
            }
        }
    }
}

/// `add_unseen` keeps what was there and adds exactly the paths of `ps`.
proof fn lemma_add_unseen_contents(acc: Seq<Seq<char>>, ps: Seq<Seq<char>>, p: Seq<char>)
    ensures
        add_unseen(acc, ps).contains(p) <==> (acc.contains(p) || ps.contains(p)),
    decreases ps.len(),
{
    if ps.len() > 0 {
        lemma_add_unseen_contents(acc, ps.drop_last(), p);
        let a = add_unseen(acc, ps.drop_last());
        if ps.contains(p) && !ps.drop_last().contains(p) {
            let k = choose|k: int| 0 <= k < ps.len() && ps[k] == p;
            if k < ps.len() - 1 {
                assert(ps.drop_last()[k] == p);
            }
        }
        if ps.drop_last().contains(p) {
            let k = choose|k: int| 0 <= k < ps.drop_last().len() && ps.drop_last()[k] == p;
            assert(ps[k] == p);
        }
        if !a.contains(ps.last()) {
            if a.push(ps.last()).contains(p) {
                let k = choose|k: int| 0 <= k < a.push(ps.last()).len() && a.push(ps.last())[k] == p;
                if k < a.len() {
                    assert(a[k] == p);
                }
            }
            if a.contains(p) {
                let k = choose|k: int| 0 <= k < a.len() && a[k] == p;
                assert(a.push(ps.last())[k] == p);
            }
            assert(a.push(ps.last())[a.len() as int] == ps.last());
        }
        assert(ps[ps.len() - 1] == ps.last());
    }
}

/// The paths a scope selects are distinct, and they are exactly the paths
/// under some tag of the scope.
pub proof fn law_scope_paths_distinct_and_complete(s: IndexView, scope: Seq<Seq<char>>, p: Seq<char>)
    ensures
        scope_paths(s, scope).no_duplicates(),
        scope_paths(s, scope).contains(p) <==> exists|k: int|
            0 <= k < scope.len() && #[trigger] paths_under(s, scope[k]).contains(p),
    decreases scope.len(),
{
    if scope.len() > 0 {
        law_scope_paths_distinct_and_complete(s, scope.drop_last(), p);
        lemma_add_unseen_no_duplicates(scope_paths(s, scope.drop_last()), paths_under(s, scope.last()));
        lemma_add_unseen_contents(scope_paths(s, scope.drop_last()), paths_under(s, scope.last()), p);
        if exists|k: int| 0 <= k < scope.len() && #[trigger] paths_under(s, scope[k]).contains(p) {
            let k = choose|k: int| 0 <= k < scope.len() && #[trigger] paths_under(s, scope[k]).contains(p);
            if k < scope.len() - 1 {
                assert(scope.drop_last()[k] == scope[k]);
            }
        }
        if exists|k: int| 0 <= k < scope.drop_last().len() && #[trigger] paths_under(s, scope.drop_last()[k]).contains(p) {
            let k = choose|k: int| 0 <= k < scope.drop_last().len() && #[trigger] paths_under(s, scope.drop_last()[k]).contains(p);
            assert(scope[k] == scope.drop_last()[k]);
        }
        assert(scope[scope.len() - 1] == scope.last());
    } else {
        assert(scope_paths(s, scope) =~= Seq::<Seq<char>>::empty());
    }
}

proof fn lemma_push_under_is_insert(s: IndexView, key: Seq<char>, path: Seq<char>)
    ensures
        push_under(s, key, path) == insert_pairs(s, key, paths_under(s, key).push(path)),
{
    lemma_first_index(s, key);
    if first_index(s, key) < 0 {
        assert(Seq::<Seq<char>>::empty().push(path) =~= seq![path]);
    }
}

/// Pushing under one key appends to that key's paths and leaves every other
/// key's paths as they were.
pub proof fn law_push_under_paths(s: IndexView, k2: Seq<char>, path: Seq<char>, k: Seq<char>)
    ensures
        paths_under(push_under(s, k2, path), k) == if k == k2 {
            paths_under(s, k).push(path)
        } else {
            paths_under(s, k)
        },
{
    lemma_push_under_is_insert(s, k2, path);
    law_get_after_insert(s, k2, paths_under(s, k2).push(path), k);
}

proof fn lemma_push_under_all_keeps(s: IndexView, keys: Seq<Seq<char>>, path: Seq<char>, k: Seq<char>, q: Seq<char>)
    requires
        paths_under(s, k).contains(q),
    ensures
        paths_under(push_under_all(s, keys, path), k).contains(q),
    decreases keys.len(),
{
    if keys.len() > 0 {
        lemma_push_under_all_keeps(s, keys.drop_last(), path, k, q);
        let t = push_under_all(s, keys.drop_last(), path);
        law_push_under_paths(t, keys.last(), path, k);
        if k == keys.last() {
            let i = choose|i: int| 0 <= i < paths_under(t, k).len() && paths_under(t, k)[i] == q;
            assert(paths_under(t, k).push(path)[i] == q);
        }
    }
}

proof fn lemma_push_under_all_lists(s: IndexView, keys: Seq<Seq<char>>, path: Seq<char>, j: int)
    requires
        0 <= j < keys.len(),
    ensures
        paths_under(push_under_all(s, keys, path), keys[j]).contains(path),
    decreases keys.len(),
{
    let t = push_under_all(s, keys.drop_last(), path);
    if j == keys.len() - 1 {
        law_push_under_paths(t, keys.last(), path, keys[j]);
        assert(paths_under(t, keys[j]).push(path)[paths_under(t, keys[j]).len() as int] == path);
    } else {
        lemma_push_under_all_lists(s, keys.drop_last(), path, j);
        assert(keys.drop_last()[j] == keys[j]);
        law_push_under_paths(t, keys.last(), path, keys[j]);
        if keys[j] == keys.last() {
            let i = choose|i: int| 0 <= i < paths_under(t, keys[j]).len() && paths_under(t, keys[j])[i] == path;
            assert(paths_under(t, keys[j]).push(path)[i] == path);
        }
    }
}

/// A test added to the index is listed under each of its tags and each of
/// its Minecraft ids, and, when it has no tags, under the default tag; what
/// was listed before stays listed.
pub proof fn law_added_test_is_listed(
    s: IndexView,
    path: Seq<char>,
    tags: Seq<Seq<char>>,
    ids: Seq<Seq<char>>,
    default_tag: Seq<char>,
    k: Seq<char>,
    q: Seq<char>,
)
    ensures
        forall|j: int| 0 <= j < tags.len() ==> paths_under(with_test(s, path, tags, ids, default_tag), #[trigger] tags[j]).contains(path),
        forall|j: int| 0 <= j < ids.len() ==> paths_under(with_test(s, path, tags, ids, default_tag), #[trigger] ids[j]).contains(path),
        tags.len() == 0 ==> paths_under(with_test(s, path, tags, ids, default_tag), default_tag).contains(path),
        paths_under(s, k).contains(q) ==> paths_under(with_test(s, path, tags, ids, default_tag), k).contains(q),
{
    let a = push_under_all(s, tags, path);
    let b = push_under_all(a, ids, path);
    let r = with_test(s, path, tags, ids, default_tag);
    assert forall|j: int| 0 <= j < tags.len() implies paths_under(r, #[trigger] tags[j]).contains(path) by {
        lemma_push_under_all_lists(s, tags, path, j);
        lemma_push_under_all_keeps(a, ids, path, tags[j], path);
    }
    assert forall|j: int| 0 <= j < ids.len() implies paths_under(r, #[trigger] ids[j]).contains(path) by {
        lemma_push_under_all_lists(a, ids, path, j);
        if tags.len() == 0 {
            law_push_under_paths(b, default_tag, path, ids[j]);
            if ids[j] == default_tag {
                let i = choose|i: int| 0 <= i < paths_under(b, ids[j]).len() && paths_under(b, ids[j])[i] == path;
                assert(paths_under(b, ids[j]).push(path)[i] == path);
            }
        }
    }
    if tags.len() == 0 {
        law_push_under_paths(b, default_tag, path, default_tag);
        assert(paths_under(b, default_tag).push(path)[paths_under(b, default_tag).len() as int] == path);
    }
    if paths_under(s, k).contains(q) {
        lemma_push_under_all_keeps(s, tags, path, k, q);
        lemma_push_under_all_keeps(a, ids, path, k, q);
        if tags.len() == 0 {
            law_push_under_paths(b, default_tag, path, k);
            if k == default_tag {
                let i = choose|i: int| 0 <= i < paths_under(b, k).len() && paths_under(b, k)[i] == q;
                assert(paths_under(b, k).push(path)[i] == q);
            }
        }
    }
}

/// Building the index over a list of files lists every file under each of
/// its tags and each of its Minecraft ids, and, when it has no tags, under the
/// default tag; what was listed before stays listed.
pub proof fn law_index_lists_every_file(
    s: IndexView,
    files: Seq<FileEntryView>,
    default_tag: Seq<char>,
    i: int,
    k: Seq<char>,
    q: Seq<char>,
)
    requires
        0 <= i < files.len(),
    ensures
        forall|j: int|
            0 <= j < files[i].1.len() ==> paths_under(with_tests(s, files, default_tag), #[trigger] files[i].1[j]).contains(
                files[i].0,
            ),
        forall|j: int|
            0 <= j < files[i].2.len() ==> paths_under(with_tests(s, files, default_tag), #[trigger] files[i].2[j]).contains(
                files[i].0,
            ),
        files[i].1.len() == 0 ==> paths_under(with_tests(s, files, default_tag), default_tag).contains(files[i].0),
        paths_under(s, k).contains(q) ==> paths_under(with_tests(s, files, default_tag), k).contains(q),
    decreases files.len(),
{
    let n = files.len() - 1;
    let pre = files.drop_last();
    let f = files.last();
    let before = with_tests(s, pre, default_tag);
    if paths_under(s, k).contains(q) {
        if n > 0 {
            law_index_lists_every_file(s, pre, default_tag, 0, k, q);
        }
        law_added_test_is_listed(before, f.0, f.1, f.2, default_tag, k, q);
    }
    if i == n {
        law_added_test_is_listed(before, f.0, f.1, f.2, default_tag, k, q);
    } else {
        assert(pre[i] == files[i]);
        let fi = files[i];
        assert forall|j: int| 0 <= j < fi.1.len() implies paths_under(with_tests(s, files, default_tag), #[trigger] fi.1[j]).contains(fi.0) by {
            law_index_lists_every_file(s, pre, default_tag, i, fi.1[j], fi.0);
            law_added_test_is_listed(before, f.0, f.1, f.2, default_tag, fi.1[j], fi.0);
        }
        assert forall|j: int| 0 <= j < fi.2.len() implies paths_under(with_tests(s, files, default_tag), #[trigger] fi.2[j]).contains(fi.0) by {
            law_index_lists_every_file(s, pre, default_tag, i, fi.2[j], fi.0);
            law_added_test_is_listed(before, f.0, f.1, f.2, default_tag, fi.2[j], fi.0);
        }
        if fi.1.len() == 0 {
            law_index_lists_every_file(s, pre, default_tag, i, default_tag, fi.0);
            law_added_test_is_listed(before, f.0, f.1, f.2, default_tag, default_tag, fi.0);
        }
    }
}

} // verus!
