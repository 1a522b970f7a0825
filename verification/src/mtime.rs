//! The modification-time cache: a mapping from source file path to the
//! last-seen modification time in seconds, kept as a vector of pairs
//! with pairwise-distinct keys.  The module also gives the cache its
//! persisted line format (`path time`, one pair per line) and proves
//! that parsing inverts rendering.

use vstd::prelude::*;
use vstd::map::*;
use crate::numeral::{dec_digits, dec_value, is_digit, lemma_dec_digits_value,
    spec_parse_u64, parse_dec, to_dec};
use crate::text::{find_char, lemma_find_char_in_range, lemma_find_char_none,
    lemma_find_char_some, chars_eq, copy_range};

verus! {

/// The mapping denoted by a list of `(path, time)` pairs; a later pair
/// overrides an earlier one with the same path.
pub open spec fn cache_model(es: Seq<(Vec<char>, u64)>) -> Map<Seq<char>, u64>
    decreases es.len(),
{
    if es.len() == 0 {
        Map::empty()
    } else {
        map![es[0].0@ => es[0].1].union_prefer_right(cache_model(es.skip(1)))
    }
}

/// Last-seen modification times of source files, keyed by path.
pub struct MtimeCache {
    pub entries: Vec<(Vec<char>, u64)>,
}

impl View for MtimeCache {
    type V = Map<Seq<char>, u64>;

    open spec fn view(&self) -> Map<Seq<char>, u64> {
        cache_model(self.entries@)
    }
}

/// A key occurs in the model exactly when some pair holds it.
pub proof fn lemma_model_contains(es: Seq<(Vec<char>, u64)>, k: Seq<char>)
    ensures
        cache_model(es).contains_key(k) <==> exists|i: int| 0 <= i < es.len() && es[i].0@ == k,
    decreases es.len(),
{
    if es.len() > 0 {
        lemma_model_contains(es.skip(1), k);
        if cache_model(es).contains_key(k) {
            if es[0].0@ != k {
                let i = choose|i: int| 0 <= i < es.skip(1).len() && es.skip(1)[i].0@ == k;
                assert(es[i + 1].0@ == k);
            }
        }
        if exists|i: int| 0 <= i < es.len() && es[i].0@ == k {
            let i = choose|i: int| 0 <= i < es.len() && es[i].0@ == k;
            if i > 0 {
                assert(es.skip(1)[i - 1].0@ == k);
            }
        }
    }
}

/// With distinct keys the model maps each pair's key to its time.
pub proof fn lemma_model_index(es: Seq<(Vec<char>, u64)>, i: int)
    requires
        forall|x: int, y: int| 0 <= x < y < es.len() ==> es[x].0@ != es[y].0@,
        0 <= i < es.len(),
    ensures
        cache_model(es).contains_key(es[i].0@),
        cache_model(es)[es[i].0@] == es[i].1,
    decreases es.len(),
{
    lemma_model_contains(es, es[i].0@);
    if i == 0 {
        lemma_model_contains(es.skip(1), es[0].0@);
        assert(forall|x: int| 0 <= x < es.skip(1).len() ==> es.skip(1)[x].0@ == es[x + 1].0@);
        assert(!cache_model(es.skip(1)).contains_key(es[0].0@));
    } else {
        assert(forall|x: int, y: int|
            0 <= x < y < es.skip(1).len() ==> es.skip(1)[x].0@ != es.skip(1)[y].0@) by {
            assert(forall|x: int| 0 <= x < es.skip(1).len() ==> es.skip(1)[x].0@ == es[x + 1].0@);
        }
        lemma_model_index(es.skip(1), i - 1);
        assert(es.skip(1)[i - 1] == es[i]);
        assert(cache_model(es.skip(1)).contains_key(es[i].0@));
    }
}

/// Appending a pair inserts it into the model.
pub proof fn lemma_model_push(es: Seq<(Vec<char>, u64)>, e: (Vec<char>, u64))
    ensures
        cache_model(es.push(e)) == cache_model(es).insert(e.0@, e.1),
    decreases es.len(),
{
    if es.len() == 0 {
        assert(es.push(e).skip(1) =~= Seq::<(Vec<char>, u64)>::empty());
        assert(es.push(e)[0] == e);
        assert(es.push(e).len() == 1);
        assert(cache_model(es.push(e))
            == map![es.push(e)[0].0@ => es.push(e)[0].1].union_prefer_right(
                cache_model(es.push(e).skip(1))));
        assert(cache_model(es.push(e).skip(1)) == cache_model(Seq::<(Vec<char>, u64)>::empty()));
        assert(cache_model(Seq::<(Vec<char>, u64)>::empty()) == Map::<Seq<char>, u64>::empty());
        assert(cache_model(es.push(e))
            == map![e.0@ => e.1].union_prefer_right(Map::<Seq<char>, u64>::empty()));
        assert_maps_equal!(
            map![e.0@ => e.1].union_prefer_right(Map::<Seq<char>, u64>::empty()),
            Map::<Seq<char>, u64>::empty().insert(e.0@, e.1)
        );
    } else {
        lemma_model_push(es.skip(1), e);
        assert(es.push(e).skip(1) =~= es.skip(1).push(e));
        assert(es.push(e)[0] == es[0]);
        vstd::map_lib::lemma_union_insert_right(
            map![es[0].0@ => es[0].1],
            cache_model(es.skip(1)),
            e.0@,
            e.1,
        );
    }
}

/// Dropping a pair removes its key from the model, when keys are
/// distinct.
pub proof fn lemma_model_remove(es: Seq<(Vec<char>, u64)>, i: int)
    requires
        forall|x: int, y: int| 0 <= x < y < es.len() ==> es[x].0@ != es[y].0@,
        0 <= i < es.len(),
    ensures
        cache_model(es.remove(i)) == cache_model(es).remove(es[i].0@),
    decreases es.len(),
{
    if i == 0 {
        assert(es.remove(0) =~= es.skip(1));
        lemma_model_contains(es.skip(1), es[0].0@);
        assert(forall|x: int| 0 <= x < es.skip(1).len() ==> es.skip(1)[x].0@ == es[x + 1].0@);
        assert(!cache_model(es.skip(1)).contains_key(es[0].0@));
        assert(cache_model(es.skip(1)) =~= cache_model(es).remove(es[0].0@));
    } else {
        assert(forall|x: int| 0 <= x < es.skip(1).len() ==> es.skip(1)[x].0@ == es[x + 1].0@);
        assert(forall|x: int, y: int|
            0 <= x < y < es.skip(1).len() ==> es.skip(1)[x].0@ != es.skip(1)[y].0@);
        lemma_model_remove(es.skip(1), i - 1);
        assert(es.remove(i).skip(1) =~= es.skip(1).remove(i - 1));
        assert(es.remove(i)[0] == es[0]);
        assert(es.skip(1)[i - 1] == es[i]);
        assert(cache_model(es.remove(i)) =~= cache_model(es).remove(es[i].0@));
    }
}

impl MtimeCache {
    /// Keys are pairwise distinct.
    pub open spec fn wf(&self) -> bool {
        forall|x: int, y: int|
            0 <= x < y < self.entries@.len() ==> self.entries@[x].0@ != self.entries@[y].0@
    }

    /// An empty cache: the state of a first build, with no history.
    pub fn new() -> (r: MtimeCache)
        ensures
            r@ == Map::<Seq<char>, u64>::empty(),
            r.wf(),
    {
        MtimeCache { entries: Vec::new() }
    }

    /// The time recorded for `path`, if any.
    pub fn lookup(&self, path: &Vec<char>) -> (r: Option<u64>)
        requires
            self.wf(),
        ensures
            r == (if self@.contains_key(path@) {
                Some(self@[path@])
            } else {
                None::<u64>
            }),
    {
        let n = self.entries.len();
        let mut i: usize = 0;
        while i < n
            invariant
                self.wf(),
                i <= n == self.entries@.len(),
                forall|k: int| 0 <= k < i ==> self.entries@[k].0@ != path@,
            decreases n - i,
        {
            if chars_eq(&self.entries[i].0, path) {
                proof {
                    lemma_model_index(self.entries@, i as int);
                }
                return Some(self.entries[i].1);
            }
            i = i + 1;
        }
        proof {
            lemma_model_contains(self.entries@, path@);
        }
        None
    }

    /// Record `t` as the last-seen time of `path`, replacing any
    /// earlier record.
    pub fn record(&mut self, path: Vec<char>, t: u64)
        requires
            old(self).wf(),
        ensures
            final(self).wf(),
            final(self)@ == old(self)@.insert(path@, t),
    {
        let n = self.entries.len();
        let mut i: usize = 0;
        while i < n
            invariant
                self == old(self),
                old(self).wf(),
                i <= n == self.entries@.len(),
                forall|k: int| 0 <= k < i ==> self.entries@[k].0@ != path@,
            decreases n - i,
        {
            if chars_eq(&self.entries[i].0, &path) {
                let ghost es = self.entries@;
                proof {
                    lemma_model_remove(es, i as int);
                    lemma_model_push(es.remove(i as int), (path, t));
                    assert(es.remove(i as int).push((path, t)).last() == (path, t));
                    assert(cache_model(es.remove(i as int).push((path, t)))
                        =~= cache_model(es).insert(path@, t));
                }
                self.entries.remove(i);
                self.entries.push((path, t));
                proof {
                    let es2 = es.remove(i as int).push((path, t));
                    assert(self.entries@ == es2);
                    assert(forall|x: int| 0 <= x < es.remove(i as int).len()
                        ==> exists|y: int| 0 <= y < es.len() && y != i
                            && #[trigger] es.remove(i as int)[x] == es[y]) by {
                        assert(forall|x: int| 0 <= x < i
                            ==> es.remove(i as int)[x] == es[x]);
                        assert(forall|x: int| i <= x < es.remove(i as int).len()
                            ==> es.remove(i as int)[x] == es[x + 1]);
                        assert(forall|x: int| #![auto] 0 <= x < es.remove(i as int).len()
                            ==> es.remove(i as int)[x] == (if x < i { es[x] } else { es[x + 1] }));
                    };
                    assert(final(self).wf()) by {
                        assert(forall|x: int| 0 <= x < i
                            ==> es2[x] == es[x]);
                        assert(forall|x: int| i <= x < es2.len() - 1
                            ==> es2[x] == es[x + 1]);
                        assert(es2[es2.len() - 1].0@ == path@);
                        assert(forall|x: int| 0 <= x < es2.len() - 1
                            ==> es2[x].0@ != path@);
                    };
                }
                return;
            }
            i = i + 1;
        }
        let ghost es = self.entries@;
        proof {
            lemma_model_push(es, (path, t));
        }
        self.entries.push((path, t));
        proof {
            let es2 = es.push((path, t));
            assert(final(self).wf()) by {
                assert(forall|x: int| 0 <= x < es.len() ==> es2[x] == es[x]);
                assert(es2[es2.len() - 1].0@ == path@);
            };
        }
    }

    /// Render the cache in its persisted form, one `path time` line
    /// per entry.
    pub fn render_mtimes(&self) -> (r: Vec<char>)
        ensures
            r@ == spec_render_cache(self.entries@),
    {
        let mut out: Vec<char> = Vec::new();
        let n = self.entries.len();
        let mut i: usize = 0;
        proof {
            assert(self.entries@.skip(0) =~= self.entries@);
            assert(Seq::<char>::empty() + spec_render_cache(self.entries@)
                =~= spec_render_cache(self.entries@));
        }
        while i < n
            invariant
                i <= n == self.entries@.len(),
                out@ + spec_render_cache(self.entries@.skip(i as int))
                    == spec_render_cache(self.entries@),
            decreases n - i,
        {
            let ghost before = out@;
            let ghost es = self.entries@;
            let klen = self.entries[i].0.len();
            let mut kk = copy_range(&self.entries[i].0, 0, klen);
            out.append(&mut kk);
            out.push(' ');
            let mut dd = to_dec(self.entries[i].1);
            out.append(&mut dd);
            out.push('\n');
            proof {
                assert(es.skip(i as int).skip(1) =~= es.skip(i + 1));
                assert(es.skip(i as int)[0] == es[i as int]);
                assert(es[i as int].0@.subrange(0, klen as int) =~= es[i as int].0@);
                assert(out@ =~= before + spec_render_line(es[i as int].0@, es[i as int].1));
                assert(spec_render_cache(es.skip(i as int))
                    == spec_render_line(es[i as int].0@, es[i as int].1)
                        + spec_render_cache(es.skip(i + 1)));
                assert(out@ + spec_render_cache(es.skip(i + 1))
                    =~= before + spec_render_cache(es.skip(i as int)));
            }
            i = i + 1;
        }
        proof {
            assert(self.entries@.skip(n as int) =~= Seq::<(Vec<char>, u64)>::empty());
            assert(out@ + Seq::<char>::empty() =~= out@);
        }
        out
    }
}

/// One persisted line: the path, a separating space, the time in
/// decimal, and a line break.
pub open spec fn spec_render_line(k: Seq<char>, t: u64) -> Seq<char> {
    k + seq![' '] + dec_digits(t as nat) + seq!['\n']
}

/// The persisted form of a cache's entries.
pub open spec fn spec_render_cache(es: Seq<(Vec<char>, u64)>) -> Seq<char>
    decreases es.len(),
{
    if es.len() == 0 {
        Seq::empty()
    } else {
        spec_render_line(es[0].0@, es[0].1) + spec_render_cache(es.skip(1))
    }
}

/// What one line denotes: the part before the single space is the
/// path, the part after must be a decimal time.  A line with no space,
/// more than one space, or a malformed number denotes nothing.
pub open spec fn spec_parse_line(line: Seq<char>) -> Option<(Seq<char>, u64)> {
    match find_char(line, ' ', 0) {
        None => None,
        Some(i) => {
            if find_char(line.skip(i + 1), ' ', 0) is Some {
                None
            } else {
                match spec_parse_u64(line.skip(i + 1)) {
                    None => None,
                    Some(v) => Some((line.take(i), v)),
                }
            }
        },
    }
}

/// What a persisted cache text denotes: the mapping collected line by
/// line, a later line overriding an earlier one; `None` as soon as one
/// line is malformed.
pub open spec fn spec_parse_cache(s: Seq<char>) -> Option<Map<Seq<char>, u64>>
    decreases s.len(),
    via spec_parse_cache_dec
{
    if s.len() == 0 {
        Some(Map::empty())
    } else {
        let line_end = match find_char(s, '\n', 0) {
            Some(j) => j,
            None => s.len() as int,
        };
        let rest_start = if line_end < s.len() {
            line_end + 1
        } else {
            line_end
        };
        match spec_parse_line(s.take(line_end)) {
            None => None,
            Some(kv) => match spec_parse_cache(s.skip(rest_start)) {
                None => None,
                Some(m) => Some(map![kv.0 => kv.1].union_prefer_right(m)),
            },
        }
    }
}

#[via_fn]
proof fn spec_parse_cache_dec(s: Seq<char>) {
    lemma_find_char_in_range(s, '\n', 0);
}

/// A path that survives the line format: free of the separating space
/// and of line breaks.
pub open spec fn key_ok(k: Seq<char>) -> bool {
    forall|i: int| 0 <= i < k.len() ==> k[i] != ' ' && k[i] != '\n'
}

/// Saving then loading is the identity on the mapping: rendering a
/// cache and parsing the result yields exactly the recorded
/// path-to-time pairs, whatever order the lines were written in.
pub proof fn lemma_render_parse_round_trip(es: Seq<(Vec<char>, u64)>)
    requires
        forall|i: int| 0 <= i < es.len() ==> key_ok(#[trigger] es[i].0@),
    ensures
        spec_parse_cache(spec_render_cache(es)) == Some(cache_model(es)),
    decreases es.len(),
{
    if es.len() > 0 {
        let k = es[0].0@;
        let t = es[0].1;
        lemma_dec_digits_value(t as nat);
        let digits = dec_digits(t as nat);
        let line = k + seq![' '] + digits;
        let full = spec_render_cache(es);
        let rest = spec_render_cache(es.skip(1));
        assert(full =~= line + seq!['\n'] + rest);
        let j = line.len() as int;
        assert(forall|m: int| 0 <= m < digits.len()
            ==> digits[m] != '\n' && digits[m] != ' ') by {
            assert(forall|m: int| 0 <= m < digits.len() ==> is_digit(#[trigger] digits[m]));
        };
        assert(full[j] == '\n');
        assert(forall|m: int| 0 <= m < j ==> full[m] != '\n') by {
            assert(forall|m: int| 0 <= m < k.len() ==> full[m] == k[m]);
            assert(full[k.len() as int] == ' ');
            assert(forall|m: int| k.len() + 1 <= m < j ==> full[m] == digits[m - k.len() - 1]);
        };
        lemma_find_char_some(full, '\n', 0, j);
        assert(full.take(j) =~= line);
        assert(full.skip(j + 1) =~= rest);
        assert(line[k.len() as int] == ' ');
        assert(forall|m: int| 0 <= m < k.len() ==> line[m] == k[m] && line[m] != ' ');
        lemma_find_char_some(line, ' ', 0, k.len() as int);
        assert(line.skip(k.len() as int + 1) =~= digits);
        lemma_find_char_none(digits, ' ', 0);
        assert(dec_value(digits) == t as nat);
        assert(spec_parse_u64(digits) == Some(t));
        assert(line.take(k.len() as int) =~= k);
        assert(spec_parse_line(line) == Some((k, t)));
        assert(forall|i: int| 0 <= i < es.skip(1).len()
            ==> key_ok(#[trigger] es.skip(1)[i].0@)) by {
            assert(forall|i: int| 0 <= i < es.skip(1).len()
                ==> #[trigger] es.skip(1)[i] == es[i + 1]);
        };
        lemma_render_parse_round_trip(es.skip(1));
        assert(spec_parse_cache(full)
            == Some(map![k => t].union_prefer_right(cache_model(es.skip(1)))));
    }
}

/// Parse a persisted cache text.
pub fn parse_mtimes(text: &Vec<char>) -> (r: Option<MtimeCache>)
    ensures
        match r {
            Some(c) => spec_parse_cache(text@) == Some(c@) && c.wf(),
            None => spec_parse_cache(text@) is None,
        },
{
    let n = text.len();
    let mut cache = MtimeCache::new();
    let mut pos: usize = 0;
    proof {
        assert(text@.skip(0) =~= text@);
        match spec_parse_cache(text@) {
            None => {},
            Some(m2) => {
                assert_maps_equal!(cache@.union_prefer_right(m2), m2);
            },
        }
    }
    while pos < n
        invariant
            pos <= n == text@.len(),
            cache.wf(),
            match spec_parse_cache(text@.skip(pos as int)) {
                None => spec_parse_cache(text@) is None,
                Some(m2) => spec_parse_cache(text@) == Some(cache@.union_prefer_right(m2)),
            },
        decreases n - pos,
    {
        let ghost seg = text@.skip(pos as int);
        proof {
            assert(forall|m: int| 0 <= m < seg.len() ==> seg[m] == text@[pos + m]);
        }
        let mut j: usize = pos;
        while j < n && text[j] != '\n'
            invariant
                pos <= j <= n == text@.len(),
                forall|k: int| pos <= k < j ==> text@[k] != '\n',
            decreases n - j,
        {
            j = j + 1;
        }
        let ghost lineseq = text@.subrange(pos as int, j as int);
        proof {
            if j < n {
                lemma_find_char_some(seg, '\n', 0, j - pos);
            } else {
                lemma_find_char_none(seg, '\n', 0);
            }
            assert(seg.take(j - pos) =~= lineseq);
        }
        let mut sp: usize = pos;
        while sp < j && text[sp] != ' '
            invariant
                pos <= sp <= j <= n == text@.len(),
                forall|k: int| pos <= k < sp ==> text@[k] != ' ',
            decreases j - sp,
        {
            sp = sp + 1;
        }
        if sp == j {
            proof {
                lemma_find_char_none(lineseq, ' ', 0);
                assert(spec_parse_line(lineseq) is None);
                assert(spec_parse_cache(seg) is None);
            }
            return None;
        }
        proof {
            lemma_find_char_some(lineseq, ' ', 0, sp - pos);
        }
        let ghost resttok = lineseq.skip(sp - pos + 1);
        proof {
            assert(resttok =~= text@.subrange(sp + 1, j as int));
        }
        let mut sp2: usize = sp + 1;
        while sp2 < j && text[sp2] != ' '
            invariant
                sp + 1 <= sp2 <= j <= n == text@.len(),
                forall|k: int| sp + 1 <= k < sp2 ==> text@[k] != ' ',
            decreases j - sp2,
        {
            sp2 = sp2 + 1;
        }
        if sp2 < j {
            proof {
                lemma_find_char_some(resttok, ' ', 0, sp2 - (sp + 1));
                assert(spec_parse_line(lineseq) is None);
                assert(spec_parse_cache(seg) is None);
            }
            return None;
        }
        proof {
            lemma_find_char_none(resttok, ' ', 0);
        }
        let tv = parse_dec(text, sp + 1, j);
        match tv {
            None => {
                proof {
                    assert(spec_parse_line(lineseq) is None);
                    assert(spec_parse_cache(seg) is None);
                }
                return None;
            },
            Some(v) => {
                let key = copy_range(text, pos, sp);
                let ghost kk = key@;
                proof {
                    assert(lineseq.take(sp - pos) =~= kk);
                    assert(spec_parse_line(lineseq) == Some((kk, v)));
                }
                let ghost oldmap = cache@;
                cache.record(key, v);
                let newpos = if j < n { j + 1 } else { n };
                proof {
                    let segr = text@.skip(newpos as int);
                    if j < n {
                        assert(seg.skip((j - pos) + 1) =~= segr);
                    } else {
                        assert(segr =~= Seq::<char>::empty());
                        assert(seg.skip(seg.len() as int) =~= segr);
                    }
                    assert(spec_parse_cache(seg) == (match spec_parse_cache(segr) {
                        None => None::<Map<Seq<char>, u64>>,
                        Some(m3) => Some(map![kk => v].union_prefer_right(m3)),
                    }));
                    match spec_parse_cache(segr) {
                        None => {
                            assert(spec_parse_cache(text@) is None);
                        },
                        Some(m3) => {
                            assert_maps_equal!(
                                oldmap.union_prefer_right(
                                    map![kk => v].union_prefer_right(m3)),
                                oldmap.insert(kk, v).union_prefer_right(m3)
                            );
                        },
                    }
                }
                pos = newpos;
            },
        }
    }
    proof {
        assert(text@.skip(n as int) =~= Seq::<char>::empty());
        assert_maps_equal!(
            cache@.union_prefer_right(Map::<Seq<char>, u64>::empty()),
            cache@
        );
    }
    Some(cache)
}

} // verus!
