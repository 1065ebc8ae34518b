//! What is in a project's directory: which files to look for, which of those
//! that are there to read, and what was read.

use vstd::prelude::*;

use crate::text::{chars, join, joined, texts, views};

verus! {

/// Whether `text` comes before `other`: by the first character in which they
/// differ, or as a start of it.
pub open spec fn precedes(text: Seq<char>, other: Seq<char>) -> bool
    decreases text.len(),
{
    if other.len() == 0 {
        false
    } else if text.len() == 0 {
        true
    } else if text[0] != other[0] {
        text[0] < other[0]
    } else {
        precedes(text.drop_first(), other.drop_first())
    }
}

/// Of two texts that differ, one comes before the other, and only one does.
proof fn lemma_precedes_is_total(text: Seq<char>, other: Seq<char>)
    ensures
        precedes(text, other) || precedes(other, text) || text == other,
        !(precedes(text, other) && precedes(other, text)),
        text == other ==> !precedes(text, other),
    decreases text.len(),
{
    if text.len() > 0 && other.len() > 0 && text[0] == other[0] {
        lemma_precedes_is_total(text.drop_first(), other.drop_first());
        if text.drop_first() == other.drop_first() {
            assert(text =~= seq![text[0]] + text.drop_first());
            assert(other =~= seq![other[0]] + other.drop_first());
        }
    } else if text.len() == 0 && other.len() == 0 {
        assert(text =~= other);
    }
}

/// What comes before a text comes before those behind it.
proof fn lemma_precedes_is_transitive(text: Seq<char>, other: Seq<char>, third: Seq<char>)
    requires
        precedes(text, other),
        precedes(other, third),
    ensures
        precedes(text, third),
    decreases text.len(),
{
    if text.len() > 0 && text[0] == other[0] && other[0] == third[0] {
        lemma_precedes_is_transitive(text.drop_first(), other.drop_first(), third.drop_first());
    }
}

/// Whether `text` comes before `other`.
fn comes_before(text: &str, other: &str) -> (holds: bool)
    ensures
        holds == precedes(text@, other@),
{
    let first = chars(text);
    let second = chars(other);
    let mut i: usize = 0;
    assert(first@.skip(0) =~= first@);
    assert(second@.skip(0) =~= second@);
    while i < first.len() && i < second.len()
        invariant
            i <= first@.len(),
            i <= second@.len(),
            first@ == text@,
            second@ == other@,
            precedes(text@, other@) == precedes(first@.skip(i as int), second@.skip(i as int)),
        decreases first.len() - i,
    {
        assert(first@.skip(i as int).drop_first() =~= first@.skip(i + 1));
        assert(second@.skip(i as int).drop_first() =~= second@.skip(i + 1));
        if first[i] != second[i] {
            return first[i] < second[i];
        }
        i += 1;
    }
    i < second.len()
}

/// Whether each of `texts` comes before the next, so that none is there twice.
pub open spec fn ascending(texts: Seq<Seq<char>>) -> bool {
    forall|i: int, j: int|
        0 <= i < j < texts.len() ==> precedes(#[trigger] texts[i], #[trigger] texts[j])
}

/// Whether `text` ends in `ending`.
pub open spec fn ends_with(text: Seq<char>, ending: Seq<char>) -> bool {
    ending.is_suffix_of(text)
}

/// The `texts` that `keep` holds of, in their order.
pub open spec fn kept(texts: Seq<Seq<char>>, keep: spec_fn(Seq<char>) -> bool) -> Seq<Seq<char>> {
    texts.filter(keep)
}

/// A place that a file can be in is nested where its path has a slash.
pub open spec fn nested(path: Seq<char>) -> bool {
    path.contains('/')
}

/// Whether `path` names a Terraform module.
pub open spec fn module(path: Seq<char>) -> bool {
    ends_with(path, ".tf"@)
}

/// Whether `path` is nested.
fn is_nested(path: &str) -> (holds: bool)
    ensures
        holds == nested(path@),
{
    let all = chars(path);
    let mut i: usize = 0;
    while i < all.len()
        invariant
            i <= all@.len(),
            all@ == path@,
            forall|k: int| 0 <= k < i ==> all@[k] != '/',
        decreases all.len() - i,
    {
        if all[i] == '/' {
            assert(path@[i as int] == '/');
            return true;
        }
        i += 1;
    }
    false
}

/// Whether `path` names a Terraform module.
fn is_module(path: &str) -> (holds: bool)
    ensures
        holds == module(path@),
{
    proof {
        reveal_strlit(".tf");
    }
    let all = chars(path);
    let len = all.len();
    if len >= 3 && all[len - 3] == '.' && all[len - 2] == 't' && all[len - 1] == 'f' {
        assert(path@.subrange(len - 3, len as int) =~= ".tf"@);
        true
    } else {
        proof {
            if module(path@) {
                let tail = path@.subrange(len - 3, len as int);
                assert(tail[0] == '.' && tail[1] == 't' && tail[2] == 'f');
            }
        }
        false
    }
}

/// The places of `configs` that a listing of the project's directory does not
/// show: the nested ones, which have to be looked at one by one.
pub fn nested_configs(configs: &[&str]) -> (out: Vec<String>)
    ensures
        texts(out@) == kept(views(configs@), |path: Seq<char>| nested(path)),
{
    let ghost all = views(configs@);
    let ghost keep = |path: Seq<char>| nested(path);
    let mut out: Vec<String> = Vec::new();
    let mut i: usize = 0;
    assert(all.take(0) =~= Seq::empty());
    assert(texts(out@) =~= kept(all.take(0), keep)) by {
        reveal(Seq::filter);
    }
    while i < configs.len()
        invariant
            i <= configs@.len(),
            all == views(configs@),
            keep == (|path: Seq<char>| nested(path)),
            texts(out@) == kept(all.take(i as int), keep),
        decreases configs.len() - i,
    {
        let ghost given = texts(out@);
        assert(all.take(i + 1).drop_last() =~= all.take(i as int));
        reveal(Seq::filter);
        if is_nested(configs[i]) {
            out.push(configs[i].to_string());
            assert(texts(out@) =~= given.push(configs@[i as int]@));
        }
        i += 1;
    }
    assert(all.take(i as int) =~= all);
    out
}

/// The files that were read, and what was read from each.
struct Files {
    names: Vec<String>,
    contents: Vec<String>,
}

/// What is in a project's directory: the paths that are there, and the text of
/// the files that were read. Both are in the order of the paths, and nothing is
/// there twice.
pub struct Scan {
    paths: Vec<String>,
    files: Files,
}

/// What `contents` hold of each of `names`.
pub open spec fn by_name(names: Seq<Seq<char>>, contents: Seq<Seq<char>>) -> Map<
    Seq<char>,
    Seq<char>,
> {
    Map::new(
        |name: Seq<char>| names.contains(name),
        |name: Seq<char>| contents[names.index_of(name)],
    )
}

/// The contents of the Terraform modules among the files, in the order of the
/// files.
pub open spec fn module_texts(names: Seq<Seq<char>>, contents: Seq<Seq<char>>) -> Seq<Seq<char>>
    decreases names.len(),
{
    if names.len() == 0 {
        Seq::empty()
    } else {
        let before = module_texts(names.drop_last(), contents.drop_last());
        if module(names.last()) {
            before.push(contents.last())
        } else {
            before
        }
    }
}

/// Putting a text in at its place keeps the order, and adds that text alone.
proof fn lemma_insert(all: Seq<Seq<char>>, at: int, path: Seq<char>)
    requires
        ascending(all),
        0 <= at <= all.len(),
        forall|i: int| 0 <= i < at ==> precedes(#[trigger] all[i], path),
        forall|i: int| at <= i < all.len() ==> precedes(path, #[trigger] all[i]),
    ensures
        ascending(all.insert(at, path)),
        forall|other: Seq<char>| #[trigger]
            all.insert(at, path).contains(other) <==> all.contains(other) || other == path,
{
    let more = all.insert(at, path);
    assert forall|i: int, j: int| 0 <= i < j < more.len() implies precedes(
        #[trigger] more[i],
        #[trigger] more[j],
    ) by {
        let from = if i < at {
            i
        } else {
            i - 1
        };
        let to = if j < at {
            j
        } else {
            j - 1
        };
        if i != at && j != at {
            assert(precedes(all[from], all[to]));
        } else if i == at {
            assert(precedes(path, all[to]));
        } else {
            assert(precedes(all[from], path));
        }
    }
    assert forall|other: Seq<char>| #[trigger]
        more.contains(other) <==> all.contains(other) || other == path by {
        if all.contains(other) {
            let i = choose|i: int| 0 <= i < all.len() && all[i] == other;
            if i < at {
                assert(more[i] == other);
            } else {
                assert(more[i + 1] == other);
            }
        }
        if other == path {
            assert(more[at] == other);
        }
        if more.contains(other) {
            let i = choose|i: int| 0 <= i < more.len() && more[i] == other;
            if i < at {
                assert(all[i] == other);
            } else if i > at {
                assert(all[i - 1] == other);
            }
        }
    }
}

/// In an ascending list a text is in one place.
proof fn lemma_one_place(all: Seq<Seq<char>>, i: int)
    requires
        ascending(all),
        0 <= i < all.len(),
    ensures
        all.index_of(all[i]) == i,
{
    assert(all.contains(all[i]));
    let j = all.index_of(all[i]);
    lemma_precedes_is_total(all[i], all[j]);
    if i < j {
        assert(precedes(all[i], all[j]));
    } else if j < i {
        assert(precedes(all[j], all[i]));
    }
}

impl Scan {
    #[verifier::type_invariant]
    spec fn well_formed(self) -> bool {
        &&& ascending(texts(self.paths@))
        &&& ascending(texts(self.files.names@))
        &&& self.files.names@.len() == self.files.contents@.len()
    }

    /// The paths that are there, in order.
    pub closed spec fn paths(&self) -> Seq<Seq<char>> {
        texts(self.paths@)
    }

    /// The paths of the files that were read, in order.
    pub closed spec fn names(&self) -> Seq<Seq<char>> {
        texts(self.files.names@)
    }

    /// What was read from each file of [`Scan::names`].
    pub closed spec fn contents(&self) -> Seq<Seq<char>> {
        texts(self.files.contents@)
    }

    /// The text of every file that was read.
    pub open spec fn files(&self) -> Map<Seq<char>, Seq<char>> {
        by_name(self.names(), self.contents())
    }

    /// A directory with nothing in it.
    pub fn new() -> (scan: Scan)
        ensures
            scan.paths().len() == 0,
            scan.names().len() == 0,
            scan.contents().len() == 0,
    {
        Scan {
            paths: Vec::new(),
            files: Files { names: Vec::new(), contents: Vec::new() },
        }
    }

    /// Find `path` in the directory.
    pub fn add_path(&mut self, path: String)
        ensures
            ascending(final(self).paths()),
            forall|other: Seq<char>| #[trigger]
                final(self).paths().contains(other) <==> old(self).paths().contains(other) || other
                    == path@,
            final(self).names() == old(self).names(),
            final(self).contents() == old(self).contents(),
            final(self).names().len() == final(self).contents().len(),
    {
        proof {
            use_type_invariant(&*self);
        }
        let at = place(&self.paths, path.as_str());
        if !is_at(&self.paths, at, path.as_str()) {
            let ghost before = texts(self.paths@);
            proof {
                lemma_insert(before, at as int, path@);
            }
            let mut paths: Vec<String> = Vec::new();
            std::mem::swap(&mut paths, &mut self.paths);
            let ghost added = path@;
            paths.insert(at, path);
            assert(texts(paths@) =~= before.insert(at as int, added));
            self.paths = paths;
        }
    }

    /// Keep `text` as what was read from the file at `path`, in place of what
    /// was read from it before.
    pub fn add_text(&mut self, path: String, text: String)
        ensures
            final(self).files() == old(self).files().insert(path@, text@),
            ascending(final(self).names()),
            final(self).names().len() == final(self).contents().len(),
            final(self).paths() == old(self).paths(),
    {
        proof {
            use_type_invariant(&*self);
        }
        let ghost names_before = texts(self.files.names@);
        let ghost contents_before = texts(self.files.contents@);
        let ghost added = path@;
        let ghost kept = text@;
        let mut files = Files { names: Vec::new(), contents: Vec::new() };
        std::mem::swap(&mut files, &mut self.files);
        let at = place(&files.names, path.as_str());
        if is_at(&files.names, at, path.as_str()) {
            files.contents.set(at, text);
            assert(texts(files.contents@) =~= contents_before.update(at as int, kept));
            proof {
                lemma_by_name_update(names_before, contents_before, at as int, kept);
            }
        } else {
            proof {
                lemma_insert(names_before, at as int, added);
                lemma_by_name_insert(names_before, contents_before, at as int, added, kept);
            }
            files.names.insert(at, path);
            files.contents.insert(at, text);
            assert(texts(files.names@) =~= names_before.insert(at as int, added));
            assert(texts(files.contents@) =~= contents_before.insert(at as int, kept));
        }
        self.files = files;
    }

    /// Whether `path` is there.
    pub fn has(&self, path: &str) -> (holds: bool)
        ensures
            holds == self.paths().contains(path@),
    {
        proof {
            use_type_invariant(self);
        }
        let at = place(&self.paths, path);
        is_at(&self.paths, at, path)
    }

    /// What was read from the file at `path`.
    pub fn text(&self, path: &str) -> (text: Option<&str>)
        ensures
            match text {
                Some(text) => self.files().contains_pair(path@, text@),
                None => !self.files().contains_key(path@),
            },
    {
        proof {
            use_type_invariant(self);
        }
        let at = place(&self.files.names, path);
        if is_at(&self.files.names, at, path) {
            proof {
                lemma_one_place(self.names(), at as int);
            }
            Some(self.files.contents[at].as_str())
        } else {
            None
        }
    }

    /// The files whose text is worth reading: the `manifests` and the Terraform
    /// modules that are there. A file that is not there is not read.
    pub fn to_read(&self, manifests: &[&str]) -> (names: Vec<String>)
        ensures
            texts(names@) == kept(
                views(manifests@) + kept(self.paths(), |path: Seq<char>| module(path)),
                |path: Seq<char>| self.paths().contains(path),
            ),
    {
        let ghost keep = |path: Seq<char>| self.paths().contains(path);
        let ghost modules = |path: Seq<char>| module(path);
        let ghost all = views(manifests@);
        let mut names: Vec<String> = Vec::new();
        let mut i: usize = 0;
        reveal(Seq::filter);
        assert(all.take(0) =~= Seq::empty());
        assert(texts(names@) =~= kept(all.take(0), keep));
        while i < manifests.len()
            invariant
                i <= manifests@.len(),
                all == views(manifests@),
                keep == (|path: Seq<char>| self.paths().contains(path)),
                texts(names@) == kept(all.take(i as int), keep),
            decreases manifests.len() - i,
        {
            let ghost given = texts(names@);
            assert(all.take(i + 1).drop_last() =~= all.take(i as int));
            reveal(Seq::filter);
            if self.has(manifests[i]) {
                names.push(manifests[i].to_string());
                assert(texts(names@) =~= given.push(manifests@[i as int]@));
            }
            i += 1;
        }
        assert(all.take(i as int) =~= all);

        let ghost paths = self.paths();
        let mut i: usize = 0;
        assert(paths.take(0) =~= Seq::empty());
        assert(all + kept(paths.take(0), modules) =~= all);
        while i < self.paths.len()
            invariant
                i <= self.paths@.len(),
                all == views(manifests@),
                paths == self.paths(),
                keep == (|path: Seq<char>| self.paths().contains(path)),
                modules == (|path: Seq<char>| module(path)),
                texts(names@) == kept(all + kept(paths.take(i as int), modules), keep),
            decreases self.paths.len() - i,
        {
            let ghost given = texts(names@);
            let ghost so_far = all + kept(paths.take(i as int), modules);
            assert(paths.take(i + 1).drop_last() =~= paths.take(i as int));
            reveal(Seq::filter);
            if is_module(self.paths[i].as_str()) {
                names.push(self.paths[i].clone());
                assert(paths[i as int] == self.paths@[i as int]@);
                assert(paths.contains(paths[i as int]));
                assert(texts(names@) =~= given.push(paths[i as int]));
                assert((all + kept(paths.take(i + 1), modules)).drop_last() =~= so_far);
            }
            i += 1;
        }
        assert(paths.take(i as int) =~= paths);
        names
    }

    /// The text of all Terraform modules that were read, in the order of their
    /// names.
    pub fn terraform(&self) -> (text: String)
        ensures
            text@ == joined(module_texts(self.names(), self.contents()), "\n"@),
    {
        proof {
            use_type_invariant(self);
        }
        let ghost names = self.names();
        let ghost contents = self.contents();
        let mut modules: Vec<String> = Vec::new();
        let mut i: usize = 0;
        assert(texts(modules@) =~= module_texts(names.take(0), contents.take(0)));
        while i < self.files.names.len()
            invariant
                i <= self.files.names@.len(),
                self.files.names@.len() == self.files.contents@.len(),
                names == texts(self.files.names@),
                contents == texts(self.files.contents@),
                texts(modules@) == module_texts(names.take(i as int), contents.take(i as int)),
            decreases self.files.names.len() - i,
        {
            let ghost given = texts(modules@);
            assert(names.take(i + 1).drop_last() =~= names.take(i as int));
            assert(contents.take(i + 1).drop_last() =~= contents.take(i as int));
            if is_module(self.files.names[i].as_str()) {
                modules.push(self.files.contents[i].clone());
                assert(texts(modules@) =~= given.push(contents[i as int]));
            }
            i += 1;
        }
        assert(names.take(i as int) =~= names);
        assert(contents.take(i as int) =~= contents);
        join(modules.as_slice(), "\n")
    }
}

proof fn lemma_by_name_update(
    names: Seq<Seq<char>>,
    contents: Seq<Seq<char>>,
    at: int,
    text: Seq<char>,
)
    requires
        ascending(names),
        names.len() == contents.len(),
        0 <= at < names.len(),
    ensures
        by_name(names, contents.update(at, text)) == by_name(names, contents).insert(
            names[at],
            text,
        ),
{
    lemma_one_place(names, at);
    assert(names.contains(names[at]));
    assert forall|name: Seq<char>| #[trigger] names.contains(name) implies contents.update(
        at,
        text,
    )[names.index_of(name)] == by_name(names, contents).insert(names[at], text)[name] by {
        let i = names.index_of(name);
        assert(names[i] == name);
    }
    assert(by_name(names, contents.update(at, text)) =~= by_name(names, contents).insert(
        names[at],
        text,
    ));
}

proof fn lemma_by_name_insert(
    names: Seq<Seq<char>>,
    contents: Seq<Seq<char>>,
    at: int,
    name: Seq<char>,
    text: Seq<char>,
)
    requires
        ascending(names),
        ascending(names.insert(at, name)),
        names.len() == contents.len(),
        0 <= at <= names.len(),
        !names.contains(name),
        forall|other: Seq<char>| #[trigger]
            names.insert(at, name).contains(other) <==> names.contains(other) || other == name,
    ensures
        by_name(names.insert(at, name), contents.insert(at, text)) == by_name(
            names,
            contents,
        ).insert(name, text),
{
    let more = names.insert(at, name);
    let after = by_name(names, contents).insert(name, text);
    assert forall|other: Seq<char>| #[trigger] more.contains(other) implies contents.insert(
        at,
        text,
    )[more.index_of(other)] == after[other] by {
        if other == name {
            lemma_one_place(more, at);
        } else {
            assert(names.contains(other));
            let i = names.index_of(other);
            assert(names[i] == other);
            if i < at {
                assert(more[i] == other);
                lemma_one_place(more, i);
            } else {
                assert(more[i + 1] == other);
                lemma_one_place(more, i + 1);
            }
        }
    }
    assert(by_name(more, contents.insert(at, text)) =~= after);
}

/// Where `path` belongs among `paths`.
fn place(paths: &Vec<String>, path: &str) -> (at: usize)
    requires
        ascending(texts(paths@)),
    ensures
        at <= paths@.len(),
        forall|i: int| 0 <= i < at ==> precedes(#[trigger] texts(paths@)[i], path@),
        forall|i: int| at <= i < paths@.len() ==> !precedes(#[trigger] texts(paths@)[i], path@),
{
    let ghost all = texts(paths@);
    let mut at: usize = 0;
    while at < paths.len()
        invariant
            at <= paths@.len(),
            all == texts(paths@),
            ascending(all),
            forall|i: int| 0 <= i < at ==> precedes(#[trigger] all[i], path@),
        decreases paths.len() - at,
    {
        assert(all[at as int] == paths@[at as int]@);
        if !comes_before(paths[at].as_str(), path) {
            assert forall|i: int| at <= i < paths@.len() implies !precedes(
                #[trigger] all[i],
                path@,
            ) by {
                if i > at && precedes(all[i], path@) {
                    lemma_precedes_is_transitive(all[at as int], all[i], path@);
                }
            }
            return at;
        }
        at += 1;
    }
    at
}

/// Whether `path` is the one at `at`, where it belongs.
fn is_at(paths: &Vec<String>, at: usize, path: &str) -> (holds: bool)
    requires
        ascending(texts(paths@)),
        at <= paths@.len(),
        forall|i: int| 0 <= i < at ==> precedes(#[trigger] texts(paths@)[i], path@),
        forall|i: int| at <= i < paths@.len() ==> !precedes(#[trigger] texts(paths@)[i], path@),
    ensures
        holds == texts(paths@).contains(path@),
        holds ==> at < paths@.len() && texts(paths@)[at as int] == path@,
        !holds ==> forall|i: int|
            at <= i < paths@.len() ==> precedes(path@, #[trigger] texts(paths@)[i]),
{
    let ghost all = texts(paths@);
    let holds = at < paths.len() && !comes_before(path, paths[at].as_str());
    proof {
        if at < paths@.len() {
            assert(all[at as int] == paths@[at as int]@);
            lemma_precedes_is_total(all[at as int], path@);
        }
        if holds {
            assert(all[at as int] == path@);
        } else {
            assert forall|i: int| at <= i < paths@.len() implies precedes(
                path@,
                #[trigger] all[i],
            ) by {
                if i > at {
                    lemma_precedes_is_transitive(path@, all[at as int], all[i]);
                }
            }
            if all.contains(path@) {
                let i = choose|i: int| 0 <= i < all.len() && all[i] == path@;
                lemma_precedes_is_total(all[i], path@);
            }
        }
    }
    holds
}

/// Texts are ordered by the first character in which they differ, and a text
/// comes before every longer one that starts with it.
pub proof fn the_first_difference_decides(
    start: Seq<char>,
    a: char,
    rest: Seq<char>,
    b: char,
    other: Seq<char>,
)
    ensures
        a < b ==> precedes(start + seq![a] + rest, start + seq![b] + other),
        a < b ==> !precedes(start + seq![b] + other, start + seq![a] + rest),
        precedes(start, start + seq![a] + rest),
        !precedes(start + seq![a] + rest, start),
        !precedes(start, start),
    decreases start.len(),
{
    let one = start + seq![a] + rest;
    let two = start + seq![b] + other;
    if start.len() > 0 {
        let shorter = start.drop_first();
        the_first_difference_decides(shorter, a, rest, b, other);
        assert(one.drop_first() =~= shorter + seq![a] + rest);
        assert(two.drop_first() =~= shorter + seq![b] + other);
    }
}

/// Of two texts that differ one comes first, and what comes before a text comes
/// before all behind it.
pub proof fn texts_are_in_one_order(text: Seq<char>, other: Seq<char>, third: Seq<char>)
    ensures
        text != other ==> precedes(text, other) || precedes(other, text),
        !(precedes(text, other) && precedes(other, text)),
        precedes(text, other) && precedes(other, third) ==> precedes(text, third),
{
    lemma_precedes_is_total(text, other);
    if precedes(text, other) && precedes(other, third) {
        lemma_precedes_is_transitive(text, other, third);
    }
}

/// A path is nested where it has a slash anywhere, and names a module where `.tf`
/// is the end of it.
pub proof fn paths_are_told_by_slash_and_ending(stem: Seq<char>, rest: Seq<char>, path: Seq<char>)
    ensures
        nested(stem + seq!['/'] + rest),
        nested(path) ==> exists|i: int| 0 <= i < path.len() && path[i] == '/',
        module(stem + ".tf"@),
        module(path) ==> path.len() >= 3 && path[path.len() - 3] == '.' && path[path.len() - 2]
            == 't' && path[path.len() - 1] == 'f',
{
    let slashed = stem + seq!['/'] + rest;
    assert(slashed[stem.len() as int] == '/');
    reveal_strlit(".tf");
    let named = stem + ".tf"@;
    assert(named.subrange(named.len() - 3, named.len() as int) =~= ".tf"@);
    if module(path) {
        let tail = path.subrange(path.len() - 3, path.len() as int);
        assert(tail[0] == '.' && tail[1] == 't' && tail[2] == 'f');
    }
}

/// Every text that is kept is there because it is wanted, every wanted one is
/// kept, and their order stays.
pub proof fn keeping_keeps_what_is_wanted(
    texts: Seq<Seq<char>>,
    more: Seq<Seq<char>>,
    text: Seq<char>,
    keep: spec_fn(Seq<char>) -> bool,
)
    ensures
        kept(texts + more, keep) == kept(texts, keep) + kept(more, keep),
        keep(text) ==> kept(seq![text], keep) == seq![text],
        !keep(text) ==> kept(seq![text], keep).len() == 0,
        kept(Seq::empty(), keep).len() == 0,
{
    Seq::filter_distributes_over_add(texts, more, keep);
    reveal(Seq::filter);
    assert(seq![text].drop_last() =~= Seq::empty());
    assert(Seq::<Seq<char>>::empty().filter(keep) =~= Seq::empty());
    if keep(text) {
        assert(kept(seq![text], keep) =~= seq![text]);
    }
}

/// The texts of the modules are those of the files whose names end in `.tf`, in
/// the order of the files.
pub proof fn module_texts_are_those_of_modules(
    names: Seq<Seq<char>>,
    contents: Seq<Seq<char>>,
    more_names: Seq<Seq<char>>,
    more_contents: Seq<Seq<char>>,
    stem: Seq<char>,
    name: Seq<char>,
    text: Seq<char>,
)
    requires
        names.len() == contents.len(),
        more_names.len() == more_contents.len(),
        forall|stem: Seq<char>| name != #[trigger] (stem + ".tf"@),
    ensures
        module_texts(names + more_names, contents + more_contents) == module_texts(names, contents)
            + module_texts(more_names, more_contents),
        module_texts(seq![stem + ".tf"@], seq![text]) == seq![text],
        module_texts(seq![name], seq![text]).len() == 0,
    decreases more_names.len(),
{
    paths_are_told_by_slash_and_ending(stem, Seq::empty(), name);
    let one = stem + ".tf"@;
    assert(seq![one].drop_last() =~= Seq::empty());
    assert(seq![name].drop_last() =~= Seq::empty());
    assert(seq![text].drop_last() =~= Seq::empty());
    assert(module_texts(Seq::empty(), Seq::empty()) =~= Seq::empty());
    assert(module_texts(seq![one], seq![text]) =~= seq![text]);
    if module(name) {
        reveal_strlit(".tf");
        let stem = name.take(name.len() - 3);
        assert(name =~= stem + ".tf"@);
    }
    if more_names.len() == 0 {
        assert(names + more_names =~= names);
        assert(contents + more_contents =~= contents);
        assert(module_texts(names, contents) + module_texts(more_names, more_contents)
            =~= module_texts(names, contents));
    } else {
        module_texts_are_those_of_modules(
            names,
            contents,
            more_names.drop_last(),
            more_contents.drop_last(),
            stem,
            name,
            text,
        );
        assert((names + more_names).drop_last() =~= names + more_names.drop_last());
        assert((contents + more_contents).drop_last() =~= contents + more_contents.drop_last());
        assert(module_texts(names + more_names, contents + more_contents) =~= module_texts(
            names,
            contents,
        ) + module_texts(more_names, more_contents));
    }
}

/// A file is found by its name, and what is found is what was read from it.
pub proof fn files_are_found_by_name(names: Seq<Seq<char>>, contents: Seq<Seq<char>>, i: int)
    requires
        ascending(names),
        names.len() == contents.len(),
        0 <= i < names.len(),
    ensures
        by_name(names, contents).contains_pair(names[i], contents[i]),
        forall|name: Seq<char>| #[trigger]
            by_name(names, contents).contains_key(name) ==> names.contains(name),
{
    lemma_one_place(names, i);
    assert(names.contains(names[i]));
}

/// In an ascending list every text comes before all behind it, so none is there
/// twice.
pub proof fn an_ascending_list_has_nothing_twice(texts: Seq<Seq<char>>, i: int, j: int)
    requires
        ascending(texts),
        0 <= i < j < texts.len(),
    ensures
        precedes(texts[i], texts[j]),
        texts[i] != texts[j],
{
    lemma_precedes_is_total(texts[i], texts[j]);
}

} // verus!
