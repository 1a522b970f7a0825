//! The per-entry decision of the tree copier: whether a source file
//! must be written to the build directory again, given its current
//! modification time, the cached one, whether the destination already
//! exists, and the force flag; and the file-name helper the logger
//! uses.

use vstd::prelude::*;
use vstd::string::StrSliceExecFns;
use crate::mtime::MtimeCache;

verus! {

/// What the tree copier does with one source file.
#[derive(Clone, Copy, PartialEq, Eq, Debug)]
pub enum FileAction {
    /// Expand directives and write the result to the destination.
    ExpandHtml,
    /// Copy the bytes unchanged to the destination.
    CopyRaw,
    /// Leave the destination untouched.
    Skip,
}

/// The time recorded for `k`, if any.
pub open spec fn spec_lookup(m: Map<Seq<char>, u64>, k: Seq<char>) -> Option<u64> {
    if m.contains_key(k) {
        Some(m[k])
    } else {
        None
    }
}

/// A file needs copying when no time is recorded for it or the
/// recorded time differs from the current one.
pub open spec fn spec_needs_copy(prev: Option<u64>, cur: u64) -> bool {
    prev != Some(cur)
}

/// A file is written when it needs copying, or it is HTML under the
/// force flag, or its destination does not exist.
pub open spec fn spec_should_write(
    force: bool,
    is_html: bool,
    dest_exists: bool,
    prev: Option<u64>,
    cur: u64,
) -> bool {
    spec_needs_copy(prev, cur) || (is_html && force) || !dest_exists
}

/// The action taken on one source file.
pub open spec fn spec_file_action(
    force: bool,
    is_html: bool,
    dest_exists: bool,
    prev: Option<u64>,
    cur: u64,
) -> FileAction {
    if spec_should_write(force, is_html, dest_exists, prev, cur) {
        if is_html {
            FileAction::ExpandHtml
        } else {
            FileAction::CopyRaw
        }
    } else {
        FileAction::Skip
    }
}

/// Decide what to do with one source file and record its current
/// modification time in the cache, whether or not it is written.
pub fn visit_file(
    cache: &mut MtimeCache,
    path: Vec<char>,
    cur_mtime: u64,
    is_html: bool,
    dest_exists: bool,
    force: bool,
) -> (a: FileAction)
    requires
        old(cache).wf(),
    ensures
        final(cache).wf(),
        final(cache)@ == old(cache)@.insert(path@, cur_mtime),
        a == spec_file_action(
            force,
            is_html,
            dest_exists,
            spec_lookup(old(cache)@, path@),
            cur_mtime,
        ),
{
    let prev = cache.lookup(&path);
    let needs_copy = match prev {
        Some(p) => p != cur_mtime,
        None => true,
    };
    let write = needs_copy || (is_html && force) || !dest_exists;
    cache.record(path, cur_mtime);
    if write {
        if is_html {
            FileAction::ExpandHtml
        } else {
            FileAction::CopyRaw
        }
    } else {
        FileAction::Skip
    }
}

/// A file unmodified since the recorded time, with its destination
/// present and not forced HTML, is skipped, and recording its time
/// again leaves the cache's mapping as it was.
pub proof fn lemma_unchanged_file_skipped(
    m: Map<Seq<char>, u64>,
    path: Seq<char>,
    cur: u64,
    is_html: bool,
    force: bool,
)
    requires
        m.contains_key(path),
        m[path] == cur,
        !(is_html && force),
    ensures
        spec_file_action(force, is_html, true, spec_lookup(m, path), cur) == FileAction::Skip,
        m.insert(path, cur) == m,
{
    assert(m.insert(path, cur) =~= m);
}

/// Under the force flag an unmodified HTML file is rewritten, while an
/// unmodified file of any other kind is still skipped.
pub proof fn lemma_force_html(m: Map<Seq<char>, u64>, path: Seq<char>, cur: u64)
    requires
        m.contains_key(path),
        m[path] == cur,
    ensures
        spec_file_action(true, true, true, spec_lookup(m, path), cur) == FileAction::ExpandHtml,
        spec_file_action(true, false, true, spec_lookup(m, path), cur) == FileAction::Skip,
{
}

/// A build is idempotent at the level of one file: right after a visit
/// recorded the current time, a second unforced visit with the same
/// time and the destination present is skipped and leaves the cache's
/// mapping unchanged.
pub proof fn lemma_rebuild_skips(m: Map<Seq<char>, u64>, path: Seq<char>, cur: u64, is_html: bool)
    ensures
        spec_lookup(m.insert(path, cur), path) == Some(cur),
        spec_file_action(
            false,
            is_html,
            true,
            spec_lookup(m.insert(path, cur), path),
            cur,
        ) == FileAction::Skip,
        m.insert(path, cur).insert(path, cur) == m.insert(path, cur),
{
    assert(m.insert(path, cur).insert(path, cur) =~= m.insert(path, cur));
}

/// The cache after a walk that visited the files of `es` in order,
/// recording each one's current modification time.
pub open spec fn spec_record_all(
    m: Map<Seq<char>, u64>,
    es: Seq<(Seq<char>, u64)>,
) -> Map<Seq<char>, u64>
    decreases es.len(),
{
    if es.len() == 0 {
        m
    } else {
        spec_record_all(m.insert(es[0].0, es[0].1), es.skip(1))
    }
}

/// The mapping denoted by the visited files alone.
pub open spec fn pairs_map(es: Seq<(Seq<char>, u64)>) -> Map<Seq<char>, u64>
    decreases es.len(),
{
    if es.len() == 0 {
        Map::empty()
    } else {
        map![es[0].0 => es[0].1].union_prefer_right(pairs_map(es.skip(1)))
    }
}

proof fn lemma_record_all_as_union(m: Map<Seq<char>, u64>, es: Seq<(Seq<char>, u64)>)
    ensures
        spec_record_all(m, es) == m.union_prefer_right(pairs_map(es)),
    decreases es.len(),
{
    if es.len() == 0 {
        assert(m.union_prefer_right(pairs_map(es)) =~= m);
    } else {
        let k0 = es[0].0;
        let v0 = es[0].1;
        lemma_record_all_as_union(m.insert(k0, v0), es.skip(1));
        assert(m.insert(k0, v0).union_prefer_right(pairs_map(es.skip(1)))
            =~= m.union_prefer_right(
                map![k0 => v0].union_prefer_right(pairs_map(es.skip(1)))));
    }
}

proof fn lemma_pairs_map_index(es: Seq<(Seq<char>, u64)>, i: int)
    requires
        0 <= i < es.len(),
        forall|x: int, y: int| 0 <= x < y < es.len() ==> es[x].0 != es[y].0,
    ensures
        pairs_map(es).contains_key(es[i].0),
        pairs_map(es)[es[i].0] == es[i].1,
    decreases es.len(),
{
    if i > 0 {
        assert(forall|x: int| 0 <= x < es.skip(1).len() ==> es.skip(1)[x].0 == es[x + 1].0);
        lemma_pairs_map_index(es.skip(1), i - 1);
        assert(es.skip(1)[i - 1] == es[i]);
    } else {
        lemma_pairs_map_no_key(es.skip(1), es[0].0);
    }
}

proof fn lemma_pairs_map_no_key(es: Seq<(Seq<char>, u64)>, k: Seq<char>)
    requires
        forall|x: int| 0 <= x < es.len() ==> es[x].0 != k,
    ensures
        !pairs_map(es).contains_key(k),
    decreases es.len(),
{
    if es.len() > 0 {
        assert(forall|x: int| 0 <= x < es.skip(1).len() ==> es.skip(1)[x].0 == es[x + 1].0);
        lemma_pairs_map_no_key(es.skip(1), k);
    }
}

/// A build is idempotent as a whole: after an unforced walk over
/// pairwise-distinct files recorded each one's time, a second unforced
/// walk with nothing changed on disk and every destination present
/// finds each file's recorded time equal to its current one, skips
/// every file, and leaves the cache's mapping exactly as the first
/// walk left it.
pub proof fn lemma_second_walk_skips(
    m: Map<Seq<char>, u64>,
    es: Seq<(Seq<char>, u64)>,
    i: int,
    is_html: bool,
)
    requires
        0 <= i < es.len(),
        forall|x: int, y: int| 0 <= x < y < es.len() ==> es[x].0 != es[y].0,
    ensures
        spec_lookup(spec_record_all(m, es), es[i].0) == Some(es[i].1),
        spec_file_action(
            false,
            is_html,
            true,
            spec_lookup(spec_record_all(m, es), es[i].0),
            es[i].1,
        ) == FileAction::Skip,
        spec_record_all(spec_record_all(m, es), es) == spec_record_all(m, es),
{
    lemma_record_all_as_union(m, es);
    lemma_pairs_map_index(es, i);
    let first = m.union_prefer_right(pairs_map(es));
    lemma_record_all_as_union(first, es);
    assert(first.union_prefer_right(pairs_map(es)) =~= first);
}

/// `s` without its trailing `/` separators.
pub open spec fn strip_slashes(s: Seq<char>) -> Seq<char>
    decreases s.len(),
{
    if s.len() > 0 && s.last() == '/' {
        strip_slashes(s.drop_last())
    } else {
        s
    }
}

/// The longest suffix of `s` free of `/`.
pub open spec fn last_component(s: Seq<char>) -> Seq<char>
    decreases s.len(),
{
    if s.len() == 0 {
        s
    } else if s[s.len() - 1] == '/' {
        Seq::empty()
    } else {
        last_component(s.drop_last()).push(s[s.len() - 1])
    }
}

/// The file name of a path: its final component, with trailing `/`
/// separators ignored, as `Path::file_name` reads it (`"/usr/bin/"`
/// names `bin`).  A path with no component at all (empty, or separators
/// only) names the empty string.
pub open spec fn spec_file_name(s: Seq<char>) -> Seq<char> {
    last_component(strip_slashes(s))
}

proof fn lemma_strip_slashes(s: Seq<char>, end: int)
    requires
        0 <= end <= s.len(),
        forall|k: int| end <= k < s.len() ==> s[k] == '/',
        end == 0 || s[end - 1] != '/',
    ensures
        strip_slashes(s) == s.take(end),
    decreases s.len(),
{
    if s.len() == end {
        assert(s.take(end) =~= s);
    } else {
        assert(s.last() == '/');
        assert(forall|k: int| end <= k < s.drop_last().len() ==> s.drop_last()[k] == '/');
        lemma_strip_slashes(s.drop_last(), end);
        assert(s.drop_last().take(end) =~= s.take(end));
    }
}

proof fn lemma_file_name_suffix(s: Seq<char>, start: int)
    requires
        0 <= start <= s.len(),
        forall|k: int| start <= k < s.len() ==> s[k] != '/',
        start == 0 || s[start - 1] == '/',
    ensures
        last_component(s) == s.skip(start),
    decreases s.len(),
{
    if s.len() == 0 {
        assert(s.skip(start) =~= s);
    } else if start == s.len() {
        assert(s[s.len() - 1] == '/');
        assert(s.skip(start) =~= Seq::<char>::empty());
    } else {
        assert(s[s.len() - 1] != '/');
        assert(forall|k: int| start <= k < s.drop_last().len() ==> s.drop_last()[k] != '/');
        lemma_file_name_suffix(s.drop_last(), start);
        assert(s.drop_last().skip(start).push(s[s.len() - 1]) =~= s.skip(start));
    }
}

/// The file name of a path: the part after the last `/`, ignoring
/// trailing separators, or the whole path when it has none.
pub fn get_file_name<'a>(path: &'a str) -> (r: &'a str)
    ensures
        r@ == spec_file_name(path@),
{
    let n = path.unicode_len();
    let mut end: usize = n;
    while end > 0 && path.get_char(end - 1) == '/'
        invariant
            end <= n == path@.len(),
            forall|k: int| end <= k < n ==> path@[k] == '/',
        decreases end,
    {
        end = end - 1;
    }
    let mut start: usize = 0;
    let mut i: usize = 0;
    while i < end
        invariant
            start <= i <= end <= n == path@.len(),
            forall|k: int| start <= k < i ==> path@[k] != '/',
            start == 0 || path@[start - 1] == '/',
        decreases end - i,
    {
        let c = path.get_char(i);
        if c == '/' {
            start = i + 1;
        }
        i = i + 1;
    }
    proof {
        lemma_strip_slashes(path@, end as int);
        let stripped = path@.take(end as int);
        assert(forall|k: int| start <= k < stripped.len() ==> stripped[k] != '/');
        assert(start == 0 || stripped[start as int - 1] == '/');
        lemma_file_name_suffix(stripped, start as int);
        assert(stripped.skip(start as int) =~= path@.subrange(start as int, end as int));
    }
    path.substring_char(start, end)
}

} // verus!
