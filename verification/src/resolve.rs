//! Expansion of `{% name %}` directives.  A page's text is scanned for
//! the first closing marker `%}`; the nearest opening marker `{%`
//! before it delimits a directive whose trimmed inner text names a
//! partial.  The partial's body, itself expanded recursively, replaces
//! the whole marked span, and the scan continues after it.

use vstd::prelude::*;
use crate::text::{chars_eq, copy_range, trim, trimmed_copy};

verus! {

/// Why an expansion failed.
#[derive(Clone, Copy, PartialEq, Eq, Debug)]
pub enum ResolveError {
    /// A directive names a partial the store does not hold.
    MissingPartial,
    /// A closing marker with no opening marker before it.
    UnmatchedMarker,
    /// Directives nest deeper than the caller's depth bound.
    DepthLimit,
}

/// The mapping denoted by a list of `(name, body)` pairs; a later pair
/// overrides an earlier one with the same name.
pub open spec fn store_model(es: Seq<(Vec<char>, Vec<char>)>) -> Map<Seq<char>, Seq<char>>
    decreases es.len(),
{
    if es.len() == 0 {
        Map::empty()
    } else {
        map![es[0].0@ => es[0].1@].union_prefer_right(store_model(es.skip(1)))
    }
}

/// An in-memory store of partials, keyed by the relative path a
/// directive uses to name them.
pub struct Partials {
    pub entries: Vec<(Vec<char>, Vec<char>)>,
}

impl View for Partials {
    type V = Map<Seq<char>, Seq<char>>;

    open spec fn view(&self) -> Map<Seq<char>, Seq<char>> {
        store_model(self.entries@)
    }
}

/// A name occurs in the store exactly when some pair holds it.
pub proof fn lemma_store_contains(es: Seq<(Vec<char>, Vec<char>)>, k: Seq<char>)
    ensures
        store_model(es).contains_key(k) <==> exists|i: int| 0 <= i < es.len() && es[i].0@ == k,
    decreases es.len(),
{
    if es.len() > 0 {
        lemma_store_contains(es.skip(1), k);
        if store_model(es).contains_key(k) {
            if es[0].0@ != k {
                let i = choose|i: int| 0 <= i < es.skip(1).len() && es.skip(1)[i].0@ == k;
                assert(es[i + 1].0@ == k);
            }
        }
        if exists|i: int| 0 <= i < es.len() && es[i].0@ == k {
            let i = choose|i: int| 0 <= i < es.len() && es[i].0@ == k;
            if i > 0 {
                assert(es.skip(1)[i - 1].0@ == k);
            }
        }
    }
}

/// With distinct names the store maps each pair's name to its body.
pub proof fn lemma_store_index(es: Seq<(Vec<char>, Vec<char>)>, i: int)
    requires
        forall|x: int, y: int| 0 <= x < y < es.len() ==> es[x].0@ != es[y].0@,
        0 <= i < es.len(),
    ensures
        store_model(es).contains_key(es[i].0@),
        store_model(es)[es[i].0@] == es[i].1@,
    decreases es.len(),
{
    lemma_store_contains(es, es[i].0@);
    if i == 0 {
        lemma_store_contains(es.skip(1), es[0].0@);
        assert(forall|x: int| 0 <= x < es.skip(1).len() ==> es.skip(1)[x].0@ == es[x + 1].0@);
        assert(!store_model(es.skip(1)).contains_key(es[0].0@));
    } else {
        assert(forall|x: int, y: int|
            0 <= x < y < es.skip(1).len() ==> es.skip(1)[x].0@ != es.skip(1)[y].0@) by {
            assert(forall|x: int| 0 <= x < es.skip(1).len() ==> es.skip(1)[x].0@ == es[x + 1].0@);
        }
        lemma_store_index(es.skip(1), i - 1);
        assert(es.skip(1)[i - 1] == es[i]);
        assert(store_model(es.skip(1)).contains_key(es[i].0@));
    }
}

/// Appending a pair inserts it into the store's mapping.
pub proof fn lemma_store_push(es: Seq<(Vec<char>, Vec<char>)>, e: (Vec<char>, Vec<char>))
    ensures
        store_model(es.push(e)) == store_model(es).insert(e.0@, e.1@),
    decreases es.len(),
{
    if es.len() == 0 {
        assert(es.push(e).skip(1) =~= Seq::<(Vec<char>, Vec<char>)>::empty());
        assert(es.push(e)[0] == e);
        assert(es.push(e).len() == 1);
        assert(store_model(es.push(e))
            == map![es.push(e)[0].0@ => es.push(e)[0].1@].union_prefer_right(
                store_model(es.push(e).skip(1))));
        assert(store_model(es.push(e).skip(1))
            == store_model(Seq::<(Vec<char>, Vec<char>)>::empty()));
        assert(store_model(Seq::<(Vec<char>, Vec<char>)>::empty())
            == Map::<Seq<char>, Seq<char>>::empty());
        assert(store_model(es.push(e))
            == map![e.0@ => e.1@].union_prefer_right(Map::<Seq<char>, Seq<char>>::empty()));
        vstd::map_lib::lemma_union_insert_right(
            map![e.0@ => e.1@],
            Map::<Seq<char>, Seq<char>>::empty(),
            e.0@,
            e.1@,
        );
        assert(map![e.0@ => e.1@].union_prefer_right(Map::<Seq<char>, Seq<char>>::empty())
            =~= Map::<Seq<char>, Seq<char>>::empty().insert(e.0@, e.1@));
    } else {
        lemma_store_push(es.skip(1), e);
        assert(es.push(e).skip(1) =~= es.skip(1).push(e));
        assert(es.push(e)[0] == es[0]);
        vstd::map_lib::lemma_union_insert_right(
            map![es[0].0@ => es[0].1@],
            store_model(es.skip(1)),
            e.0@,
            e.1@,
        );
    }
}

impl Partials {
    /// Names are pairwise distinct.
    pub open spec fn wf(&self) -> bool {
        forall|x: int, y: int|
            0 <= x < y < self.entries@.len() ==> self.entries@[x].0@ != self.entries@[y].0@
    }

    /// An empty store.
    pub fn new() -> (r: Partials)
        ensures
            r@ == Map::<Seq<char>, Seq<char>>::empty(),
            r.wf(),
    {
        Partials { entries: Vec::new() }
    }

    /// Does the store hold a partial under `name`?
    pub fn has(&self, name: &Vec<char>) -> (r: bool)
        requires
            self.wf(),
        ensures
            r == self@.contains_key(name@),
    {
        self.find(name).is_some()
    }

    /// Add a partial; `name` must not be taken yet.
    pub fn add(&mut self, name: Vec<char>, body: Vec<char>)
        requires
            old(self).wf(),
            !old(self)@.contains_key(name@),
        ensures
            final(self).wf(),
            final(self)@ == old(self)@.insert(name@, body@),
    {
        proof {
            lemma_store_push(self.entries@, (name, body));
            lemma_store_contains(self.entries@, name@);
        }
        let ghost es = self.entries@;
        self.entries.push((name, body));
        proof {
            let es2 = es.push((name, body));
            assert(final(self).wf()) by {
                assert(forall|x: int| 0 <= x < es.len() ==> es2[x] == es[x]);
                assert(es2[es2.len() - 1].0@ == name@);
                assert(forall|x: int| 0 <= x < es.len() ==> es[x].0@ != name@);
            };
        }
    }

    /// The body stored under `name`, if any.
    pub fn find(&self, name: &Vec<char>) -> (r: Option<&Vec<char>>)
        requires
            self.wf(),
        ensures
            match r {
                Some(b) => self@.contains_key(name@) && b@ == self@[name@],
                None => !self@.contains_key(name@),
            },
    {
        let n = self.entries.len();
        let mut i: usize = 0;
        while i < n
            invariant
                self.wf(),
                i <= n == self.entries@.len(),
                forall|k: int| 0 <= k < i ==> self.entries@[k].0@ != name@,
            decreases n - i,
        {
            if chars_eq(&self.entries[i].0, name) {
                proof {
                    lemma_store_index(self.entries@, i as int);
                }
                return Some(&self.entries[i].1);
            }
            i = i + 1;
        }
        proof {
            lemma_store_contains(self.entries@, name@);
        }
        None
    }
}

/// Index of the first closing marker `%}` at or after `from`, given as
/// the index of its `%`.
pub open spec fn find_close(s: Seq<char>, from: int) -> Option<int>
    decreases s.len() - from,
{
    if from < 0 || from + 1 >= s.len() {
        None
    } else if s[from] == '%' && s[from + 1] == '}' {
        Some(from)
    } else {
        find_close(s, from + 1)
    }
}

/// Index of the last opening marker `{%` at or before `start`, given
/// as the index of its `{`.
pub open spec fn find_open(s: Seq<char>, start: int) -> Option<int>
    decreases start + 1,
{
    if start < 0 {
        None
    } else if start + 1 < s.len() && s[start] == '{' && s[start + 1] == '%' {
        Some(start)
    } else {
        find_open(s, start - 1)
    }
}

/// A found closing marker lies in range and is one.
pub proof fn lemma_find_close_in_range(s: Seq<char>, from: int)
    ensures
        find_close(s, from) matches Some(j)
            ==> from <= j && j + 1 < s.len() && s[j] == '%' && s[j + 1] == '}',
    decreases s.len() - from,
{
    if 0 <= from && from + 1 < s.len() && !(s[from] == '%' && s[from + 1] == '}') {
        lemma_find_close_in_range(s, from + 1);
    }
}

/// `find_close` returns the first closing marker.
pub proof fn lemma_find_close_some(s: Seq<char>, from: int, j: int)
    requires
        0 <= from <= j,
        j + 1 < s.len(),
        s[j] == '%' && s[j + 1] == '}',
        forall|k: int| #![trigger s[k]] from <= k < j ==> !(s[k] == '%' && s[k + 1] == '}'),
    ensures
        find_close(s, from) == Some(j),
    decreases j - from,
{
    if from < j {
        lemma_find_close_some(s, from + 1, j);
    }
}

/// Without a closing marker there is nothing to find.
pub proof fn lemma_find_close_none(s: Seq<char>, from: int)
    requires
        forall|k: int| #![trigger s[k]] from <= k && k + 1 < s.len() ==> !(s[k] == '%' && s[k + 1] == '}'),
    ensures
        find_close(s, from) is None,
    decreases s.len() - from,
{
    if 0 <= from && from + 1 < s.len() {
        lemma_find_close_none(s, from + 1);
    }
}

/// `find_open` returns the last opening marker at or before `start`.
pub proof fn lemma_find_open_some(s: Seq<char>, start: int, i: int)
    requires
        0 <= i <= start,
        i + 1 < s.len(),
        s[i] == '{' && s[i + 1] == '%',
        forall|k: int| #![trigger s[k]] i < k <= start ==> !(k + 1 < s.len() && s[k] == '{' && s[k + 1] == '%'),
    ensures
        find_open(s, start) == Some(i),
    decreases start - i,
{
    if i < start {
        lemma_find_open_some(s, start - 1, i);
    }
}

/// What expanding `s` against the store `fs` yields, with `fuel`
/// bounding the nesting depth of partials.  The first closing marker
/// and the nearest opening marker before it delimit the first
/// directive; the named partial's expanded body replaces the whole
/// span, and the text after the span is expanded in turn.
pub open spec fn spec_expand(s: Seq<char>, fs: Map<Seq<char>, Seq<char>>, fuel: nat) -> Result<
    Seq<char>,
    ResolveError,
>
    decreases fuel, s.len(),
    via spec_expand_dec
{
    match find_close(s, 0) {
        None => Ok(s),
        Some(j) => match find_open(s, j - 2) {
            None => Err(ResolveError::UnmatchedMarker),
            Some(i) => {
                let path = trim(s.subrange(i + 2, j));
                if !fs.contains_key(path) {
                    Err(ResolveError::MissingPartial)
                } else if fuel == 0 {
                    Err(ResolveError::DepthLimit)
                } else {
                    match spec_expand(fs[path], fs, (fuel - 1) as nat) {
                        Err(e) => Err(e),
                        Ok(body) => match spec_expand(s.skip(j + 2), fs, fuel) {
                            Err(e) => Err(e),
                            Ok(rest) => Ok(s.take(i) + body + rest),
                        },
                    }
                }
            },
        },
    }
}

#[via_fn]
proof fn spec_expand_dec(s: Seq<char>, fs: Map<Seq<char>, Seq<char>>, fuel: nat) {
    lemma_find_close_in_range(s, 0);
}

/// Index of the first closing marker of `v`, if any.
fn find_close_idx(v: &Vec<char>) -> (r: Option<usize>)
    ensures
        match r {
            Some(j) => find_close(v@, 0) == Some(j as int) && j + 1 < v.len(),
            None => find_close(v@, 0) is None,
        },
{
    let n = v.len();
    if n < 2 {
        return None;
    }
    let mut j: usize = 0;
    while j + 1 < n
        invariant
            j + 1 <= n == v@.len(),
            find_close(v@, 0) == find_close(v@, j as int),
        decreases n - j,
    {
        if v[j] == '%' && v[j + 1] == '}' {
            return Some(j);
        }
        j = j + 1;
    }
    None
}

/// Index of the last opening marker at or before `start`, if any.
fn find_open_idx(v: &Vec<char>, start: usize) -> (r: Option<usize>)
    requires
        start < v.len(),
    ensures
        match r {
            Some(i) => find_open(v@, start as int) == Some(i as int)
                && i <= start && i + 1 < v.len(),
            None => find_open(v@, start as int) is None,
        },
{
    let mut i: usize = start + 1;
    while i > 0
        invariant
            i <= start + 1,
            start < v@.len() == v.len(),
            find_open(v@, start as int) == find_open(v@, i as int - 1),
        decreases i,
    {
        i = i - 1;
        if i + 1 < v.len() && v[i] == '{' && v[i + 1] == '%' {
            return Some(i);
        }
    }
    None
}

/// No closing marker `%}` occurs in `s`.
pub open spec fn no_close_marker(s: Seq<char>) -> bool {
    forall|j: int| #![trigger s[j]] 0 <= j && j + 1 < s.len()
        ==> !(s[j] == '%' && s[j + 1] == '}')
}

/// Neither marker occurs in `s`: no `{%` and no `%}` pair.
pub open spec fn marker_free(s: Seq<char>) -> bool {
    forall|j: int| #![trigger s[j]] 0 <= j && j + 1 < s.len()
        ==> !(s[j] == '{' && s[j + 1] == '%') && !(s[j] == '%' && s[j + 1] == '}')
}

/// Characters that may stand inside a directive's markers as a plain
/// partial name: no marker character at all.
pub open spec fn plain_path(p: Seq<char>) -> bool {
    forall|m: int| #![trigger p[m]] 0 <= m < p.len()
        ==> p[m] != '{' && p[m] != '%' && p[m] != '}'
}

/// A page with no directive expands to itself: on text free of closing
/// markers, expansion is the identity, whatever the store holds.
pub proof fn lemma_no_directive_identity(s: Seq<char>, fs: Map<Seq<char>, Seq<char>>, fuel: nat)
    requires
        no_close_marker(s),
    ensures
        spec_expand(s, fs, fuel) == Ok::<Seq<char>, ResolveError>(s),
{
    lemma_find_close_none(s, 0);
}

/// A directive that names an absent partial fails the whole expansion
/// with `MissingPartial`, whatever the depth bound.
pub proof fn lemma_missing_partial_fails(
    s: Seq<char>,
    fs: Map<Seq<char>, Seq<char>>,
    fuel: nat,
    j: int,
    i: int,
)
    requires
        find_close(s, 0) == Some(j),
        find_open(s, j - 2) == Some(i),
        !fs.contains_key(trim(s.subrange(i + 2, j))),
    ensures
        spec_expand(s, fs, fuel) == Err::<Seq<char>, ResolveError>(ResolveError::MissingPartial),
{
}

/// A failure inside a pulled-in partial aborts the enclosing
/// expansion with the same error: when the first directive of `s`
/// names a stored partial whose own expansion fails, expanding `s`
/// fails alike.  Together with `lemma_missing_partial_fails` this
/// carries a missing target out of arbitrarily nested partials.
pub proof fn lemma_nested_failure_propagates(
    s: Seq<char>,
    fs: Map<Seq<char>, Seq<char>>,
    fuel: nat,
    j: int,
    i: int,
)
    requires
        find_close(s, 0) == Some(j),
        find_open(s, j - 2) == Some(i),
        fs.contains_key(trim(s.subrange(i + 2, j))),
        fuel >= 1,
        spec_expand(fs[trim(s.subrange(i + 2, j))], fs, (fuel - 1) as nat) is Err,
    ensures
        spec_expand(s, fs, fuel) == spec_expand(
            fs[trim(s.subrange(i + 2, j))],
            fs,
            (fuel - 1) as nat,
        ),
{
}

/// Expanding a text holding exactly one directive, with plain text
/// before it: the named partial's expanded body replaces the span, and
/// what follows the span is expanded in turn.
proof fn lemma_expand_one(
    pre: Seq<char>,
    p: Seq<char>,
    post: Seq<char>,
    fs: Map<Seq<char>, Seq<char>>,
    fuel: nat,
)
    requires
        no_close_marker(pre),
        plain_path(p),
        fs.contains_key(trim(p)),
        fuel >= 1,
    ensures
        spec_expand(pre + seq!['{', '%'] + p + seq!['%', '}'] + post, fs, fuel) == (
        match spec_expand(fs[trim(p)], fs, (fuel - 1) as nat) {
            Err(e) => Err::<Seq<char>, ResolveError>(e),
            Ok(body) => match spec_expand(post, fs, fuel) {
                Err(e) => Err::<Seq<char>, ResolveError>(e),
                Ok(rest) => Ok(pre + body + rest),
            },
        }),
{
    let s = pre + seq!['{', '%'] + p + seq!['%', '}'] + post;
    let i = pre.len() as int;
    let j = i + 2 + p.len() as int;
    assert(s.len() == pre.len() + p.len() + post.len() + 4);
    assert(forall|m: int| 0 <= m < pre.len() ==> s[m] == pre[m]);
    assert(s[i] == '{');
    assert(s[i + 1] == '%');
    assert(forall|m: int| 0 <= m < p.len() ==> s[i + 2 + m] == p[m]);
    assert(s[j] == '%');
    assert(s[j + 1] == '}');
    assert(forall|m: int| 0 <= m < post.len() ==> s[j + 2 + m] == post[m]);
    assert(forall|k: int| #![trigger s[k]] 0 <= k < j ==> !(s[k] == '%' && s[k + 1] == '}'))
        by {
        assert(forall|k: int| #![trigger s[k]] 0 <= k && k + 1 < pre.len()
            ==> !(s[k] == '%' && s[k + 1] == '}'));
        assert(forall|k: int| #![trigger s[k]] i + 2 <= k < j ==> s[k] == p[k - i - 2]);
        if p.len() > 0 {
            assert(s[i + 2] != '}');
        } else {
            assert(s[i + 2] == '%');
        }
    };
    lemma_find_close_some(s, 0, j);
    assert(forall|k: int| #![trigger s[k]]
        i < k <= j - 2 ==> !(k + 1 < s.len() && s[k] == '{' && s[k + 1] == '%')) by {
        assert(s[i + 1] == '%');
        assert(forall|k: int| #![trigger s[k]] i + 2 <= k <= j - 2 ==> s[k] == p[k - i - 2]);
    };
    lemma_find_open_some(s, j - 2, i);
    assert(s.subrange(i + 2, j) =~= p);
    assert(s.take(i) =~= pre);
    assert(s.skip(j + 2) =~= post);
}

/// Nested partials inline fully: a page that pulls in partial `pb`,
/// whose body pulls in partial `pc` in turn, expands to the page with
/// `pc`'s body inlined in `pb`'s, and the result holds no marker.  The
/// hypothesis asks only that the surviving text — the surroundings of
/// the two directives and the innermost body, laid out as in the
/// result — holds no `{%` and no `%}` pair: on text with a stray pair
/// the claim itself fails (a stray `%}` aborts the expansion, a stray
/// `{%` would survive into the output).
pub proof fn lemma_nested_inlining(
    a0: Seq<char>,
    pb: Seq<char>,
    a1: Seq<char>,
    b0: Seq<char>,
    pc: Seq<char>,
    b1: Seq<char>,
    cb: Seq<char>,
    fs: Map<Seq<char>, Seq<char>>,
    fuel: nat,
)
    requires
        marker_free(a0 + b0 + cb + b1 + a1),
        plain_path(pb),
        plain_path(pc),
        fs.contains_key(trim(pb)),
        fs[trim(pb)] == b0 + seq!['{', '%'] + pc + seq!['%', '}'] + b1,
        fs.contains_key(trim(pc)),
        fs[trim(pc)] == cb,
        fuel >= 2,
    ensures
        spec_expand(a0 + seq!['{', '%'] + pb + seq!['%', '}'] + a1, fs, fuel)
            == Ok::<Seq<char>, ResolveError>(a0 + b0 + cb + b1 + a1),
        marker_free(a0 + b0 + cb + b1 + a1),
{
    let out = a0 + b0 + cb + b1 + a1;
    let o1 = a0.len() as int;
    let o2 = o1 + b0.len();
    let o3 = o2 + cb.len();
    let o4 = o3 + b1.len();
    assert(forall|m: int| 0 <= m < a0.len() ==> out[m] == a0[m]);
    assert(forall|m: int| 0 <= m < b0.len() ==> #[trigger] b0[m] == out[o1 + m]);
    assert(forall|m: int| 0 <= m < cb.len() ==> #[trigger] cb[m] == out[o2 + m]);
    assert(forall|m: int| 0 <= m < b1.len() ==> #[trigger] b1[m] == out[o3 + m]);
    assert(forall|m: int| 0 <= m < a1.len() ==> #[trigger] a1[m] == out[o4 + m]);
    assert forall|x: int| #![trigger a0[x]] 0 <= x && x + 1 < a0.len() implies !(a0[x] == '%'
        && a0[x + 1] == '}') by {
        assert(out[x] == a0[x]);
        assert(out[x + 1] == a0[x + 1]);
    }
    assert forall|x: int| #![trigger b0[x]] 0 <= x && x + 1 < b0.len() implies !(b0[x] == '%'
        && b0[x + 1] == '}') by {
        assert(out[o1 + x] == b0[x]);
        assert(out[o1 + x + 1] == b0[x + 1]);
    }
    assert forall|x: int| #![trigger cb[x]] 0 <= x && x + 1 < cb.len() implies !(cb[x] == '%'
        && cb[x + 1] == '}') by {
        assert(out[o2 + x] == cb[x]);
        assert(out[o2 + x + 1] == cb[x + 1]);
    }
    assert forall|x: int| #![trigger b1[x]] 0 <= x && x + 1 < b1.len() implies !(b1[x] == '%'
        && b1[x + 1] == '}') by {
        assert(out[o3 + x] == b1[x]);
        assert(out[o3 + x + 1] == b1[x + 1]);
    }
    assert forall|x: int| #![trigger a1[x]] 0 <= x && x + 1 < a1.len() implies !(a1[x] == '%'
        && a1[x + 1] == '}') by {
        assert(out[o4 + x] == a1[x]);
        assert(out[o4 + x + 1] == a1[x + 1]);
    }
    assert(no_close_marker(a0));
    assert(no_close_marker(b0));
    assert(no_close_marker(cb));
    assert(no_close_marker(b1));
    assert(no_close_marker(a1));
    lemma_expand_one(a0, pb, a1, fs, fuel);
    lemma_expand_one(b0, pc, b1, fs, (fuel - 1) as nat);
    lemma_no_directive_identity(cb, fs, (fuel - 2) as nat);
    lemma_no_directive_identity(a1, fs, fuel);
    lemma_no_directive_identity(b1, fs, (fuel - 1) as nat);
    let bfull = b0 + seq!['{', '%'] + pc + seq!['%', '}'] + b1;
    assert(spec_expand(bfull, fs, (fuel - 1) as nat)
        == Ok::<Seq<char>, ResolveError>(b0 + cb + b1));
    assert(spec_expand(a0 + seq!['{', '%'] + pb + seq!['%', '}'] + a1, fs, fuel)
        == Ok::<Seq<char>, ResolveError>(a0 + (b0 + cb + b1) + a1));
    assert(a0 + (b0 + cb + b1) + a1 =~= out);
}

/// Expand the directives of `text` against `partials`, with `fuel`
/// bounding the nesting depth.
pub fn resolve(text: &Vec<char>, partials: &Partials, fuel: u64) -> (r: Result<
    Vec<char>,
    ResolveError,
>)
    requires
        partials.wf(),
    ensures
        match r {
            Ok(out) => spec_expand(text@, partials@, fuel as nat)
                == Ok::<Seq<char>, ResolveError>(out@),
            Err(e) => spec_expand(text@, partials@, fuel as nat)
                == Err::<Seq<char>, ResolveError>(e),
        },
    decreases fuel, text@.len(),
{
    let n = text.len();
    let jopt = find_close_idx(text);
    match jopt {
        None => {
            let out = copy_range(text, 0, n);
            proof {
                assert(out@ =~= text@);
            }
            Ok(out)
        },
        Some(j) => {
            if j < 2 {
                return Err(ResolveError::UnmatchedMarker);
            }
            let iopt = find_open_idx(text, j - 2);
            match iopt {
                None => Err(ResolveError::UnmatchedMarker),
                Some(i) => {
                    let path = trimmed_copy(text, i + 2, j);
                    match partials.find(&path) {
                        None => Err(ResolveError::MissingPartial),
                        Some(body) => {
                            if fuel == 0 {
                                return Err(ResolveError::DepthLimit);
                            }
                            match resolve(body, partials, fuel - 1) {
                                Err(e) => Err(e),
                                Ok(bodyx) => {
                                    let restv = copy_range(text, j + 2, n);
                                    match resolve(&restv, partials, fuel) {
                                        Err(e) => Err(e),
                                        Ok(restx) => {
                                            let mut out = copy_range(text, 0, i);
                                            let mut tail = bodyx;
                                            out.append(&mut tail);
                                            let mut tail2 = restx;
                                            out.append(&mut tail2);
                                            proof {
                                                assert(text@.subrange(0, i as int)
                                                    =~= text@.take(i as int));
                                            }
                                            Ok(out)
                                        },
                                    }
                                },
                            }
                        },
                    }
                },
            }
        },
    }
}

} // verus!
