//! Character-level helpers for topic strings: splitting on `/`, joining,
//! and the predicates that topic validation needs.
use vstd::prelude::*;

verus! {

/// The topic level separator.
pub open spec fn slash() -> char {
    '/'
}

/// Splits `s` on every `/`, exactly as `str::split('/')` does: a string with
/// `k` separators yields `k + 1` pieces, empty pieces included.
pub open spec fn split_levels(s: Seq<char>) -> Seq<Seq<char>>
    decreases s.len(),
{
    if s.len() == 0 {
        seq![Seq::<char>::empty()]
    } else {
        let prev = split_levels(s.drop_last());
        if s.last() == slash() {
            prev.push(Seq::<char>::empty())
        } else {
            prev.update(prev.len() - 1, prev.last().push(s.last()))
        }
    }
}

/// Joins pieces with `/` between consecutive pieces.
pub open spec fn join_levels(parts: Seq<Seq<char>>) -> Seq<char>
    decreases parts.len(),
{
    if parts.len() == 0 {
        Seq::<char>::empty()
    } else if parts.len() == 1 {
        parts[0]
    } else {
        join_levels(parts.drop_last()).push(slash()) + parts.last()
    }
}

/// No piece of a split contains the separator.
pub open spec fn levels_free_of_slash(parts: Seq<Seq<char>>) -> bool {
    forall|i: int| 0 <= i < parts.len() ==> !(#[trigger] parts[i]).contains(slash())
}

/// Characters that `char::is_whitespace` accepts (the Unicode `White_Space`
/// property).
pub open spec fn is_white(c: char) -> bool {
    ||| ('\u{9}' <= c && c <= '\u{d}')
    ||| c == ' '
    ||| c == '\u{85}'
    ||| c == '\u{a0}'
    ||| c == '\u{1680}'
    ||| ('\u{2000}' <= c && c <= '\u{200a}')
    ||| c == '\u{2028}'
    ||| c == '\u{2029}'
    ||| c == '\u{202f}'
    ||| c == '\u{205f}'
    ||| c == '\u{3000}'
}

/// Every character of `s` is white space (so `s.trim()` is empty).
pub open spec fn all_white(s: Seq<char>) -> bool {
    forall|i: int| 0 <= i < s.len() ==> is_white(#[trigger] s[i])
}

/// `s` holds `c` somewhere.
pub open spec fn has_char(s: Seq<char>, c: char) -> bool {
    exists|i: int| 0 <= i < s.len() && #[trigger] s[i] == c
}

/// The split of a string has at least one piece.
pub proof fn lemma_split_nonempty(s: Seq<char>)
    ensures
        split_levels(s).len() >= 1,
    decreases s.len(),
{
    if s.len() > 0 {
        lemma_split_nonempty(s.drop_last());
    }
}

/// Splitting then joining gives back the string, and no piece holds `/`.
pub proof fn lemma_join_split(s: Seq<char>)
    ensures
        join_levels(split_levels(s)) == s,
        levels_free_of_slash(split_levels(s)),
    decreases s.len(),
{
    if s.len() > 0 {
        let p = s.drop_last();
        lemma_join_split(p);
        lemma_split_nonempty(p);
        let prev = split_levels(p);
        if s.last() == slash() {
            let cur = prev.push(Seq::<char>::empty());
            assert(cur.drop_last() =~= prev);
            assert(join_levels(cur) =~= s);
            assert forall|i: int| 0 <= i < cur.len() implies !(#[trigger] cur[i]).contains(
                slash(),
            ) by {
                if i < prev.len() {
                    assert(cur[i] == prev[i]);
                }
            }
        } else {
            let cur = prev.update(prev.len() - 1, prev.last().push(s.last()));
            assert forall|i: int| 0 <= i < cur.len() implies !(#[trigger] cur[i]).contains(
                slash(),
            ) by {
                if i < prev.len() - 1 {
                    assert(cur[i] == prev[i]);
                } else {
                    let l = prev.last();
                    assert(!l.contains(slash()));
                    if cur[i].contains(slash()) {
                        let j = choose|j: int| 0 <= j < cur[i].len() && cur[i][j] == slash();
                        if j < l.len() {
                            assert(l[j] == slash());
                        }
                    }
                }
            }
            assert(s =~= p.push(s.last()));
            if prev.len() == 1 {
                assert(cur.len() == 1);
                assert(cur[0] == prev[0].push(s.last()));
                assert(join_levels(cur) == cur[0]);
                assert(join_levels(cur) =~= s);
            } else {
                assert(cur.drop_last() =~= prev.drop_last());
                assert(join_levels(prev) == join_levels(prev.drop_last()).push(slash())
                    + prev.last());
                assert(join_levels(cur) =~= s);
            }
        }
    }
}

/// Appends one character to a string.
///
/// Trusted wrapper around `String::push`: the contract claims that the
/// string afterwards holds its former characters followed by `c`.
#[verifier::external_body]
pub(crate) fn push_char(s: &mut String, c: char)
    ensures
        final(s)@ == old(s)@.push(c),
{
    s.push(c);
}

/// The characters of a string slice, in order.
pub fn chars_of(s: &str) -> (out: Vec<char>)
    ensures
        out@ == s@,
{
    let mut out: Vec<char> = Vec::new();
    for c in it: s.chars()
        invariant
            out@ == it.seq().take(it.index() as int),
    {
        out.push(c);
    }
    out
}

/// A string built from the characters `cs[from..to]`.
pub fn string_of_range(cs: &Vec<char>, from: usize, to: usize) -> (out: String)
    requires
        from <= to <= cs.len(),
    ensures
        out@ == cs@.subrange(from as int, to as int),
{
    let mut out = String::new();
    let mut i = from;
    while i < to
        invariant
            from <= i <= to <= cs.len(),
            out@ == cs@.subrange(from as int, i as int),
        decreases to - i,
    {
        push_char(&mut out, cs[i]);
        i = i + 1;
        assert(out@ =~= cs@.subrange(from as int, i as int));
    }
    out
}

/// A string holding the characters of `cs`.
pub fn string_of_chars(cs: &Vec<char>) -> (out: String)
    ensures
        out@ == cs@,
{
    let out = string_of_range(cs, 0, cs.len());
    assert(cs@.subrange(0, cs.len() as int) =~= cs@);
    out
}

/// Appends all characters of `src` to `dst`.
pub fn append_str(dst: &mut String, src: &str)
    ensures
        final(dst)@ == old(dst)@ + src@,
{
    let ghost start = dst@;
    for c in it: src.chars()
        invariant
            dst@ == start + it.seq().take(it.index() as int),
    {
        push_char(dst, c);
        assert(dst@ =~= start + it.seq().take(it.index() + 1));
    }
}

/// Two strings hold the same characters.
pub fn same_text(a: &String, b: &String) -> (r: bool)
    ensures
        r == (a@ == b@),
{
    a.eq(b)
}

/// Splits `s` on `/` into its levels.
pub fn split_topic(s: &Vec<char>) -> (out: Vec<String>)
    ensures
        out@.len() == split_levels(s@).len(),
        forall|i: int| 0 <= i < out@.len() ==> (#[trigger] out@[i])@ == split_levels(s@)[i],
{
    let mut out: Vec<String> = Vec::new();
    let mut cur = String::new();
    let mut i: usize = 0;
    while i < s.len()
        invariant
            0 <= i <= s.len(),
            out@.len() + 1 == split_levels(s@.take(i as int)).len(),
            forall|k: int|
                0 <= k < out@.len() ==> (#[trigger] out@[k])@ == split_levels(
                    s@.take(i as int),
                )[k],
            cur@ == split_levels(s@.take(i as int)).last(),
        decreases s.len() - i,
    {
        let c = s[i];
        proof {
            lemma_split_nonempty(s@.take(i as int));
            assert(s@.take(i + 1).drop_last() =~= s@.take(i as int));
        }
        if c == '/' {
            out.push(cur);
            cur = String::new();
        } else {
            push_char(&mut cur, c);
        }
        i = i + 1;
    }
    out.push(cur);
    assert(s@.take(s.len() as int) =~= s@);
    proof {
        lemma_split_nonempty(s@);
    }
    out
}


/// A text without `/` splits into itself.
pub proof fn lemma_split_single(t: Seq<char>)
    requires
        !t.contains(slash()),
    ensures
        split_levels(t) == seq![t],
    decreases t.len(),
{
    if t.len() > 0 {
        let p = t.drop_last();
        assert(!p.contains(slash())) by {
            if p.contains(slash()) {
                let k = choose|k: int| 0 <= k < p.len() && p[k] == slash();
                assert(t[k] == slash());
            }
        }
        lemma_split_single(p);
        assert(t.last() != slash()) by {
            assert(t[t.len() - 1] == t.last());
        }
        assert(p.push(t.last()) =~= t);
        assert(split_levels(t) == split_levels(p).update(0, p.push(t.last())));
        assert(seq![p].update(0, t) =~= seq![t]);
    } else {
        assert(t =~= Seq::<char>::empty());
    }
}

/// Splitting `s/t`, where `t` holds no `/`, gives the split of `s` and then
/// `t`.
pub proof fn lemma_split_append(s: Seq<char>, t: Seq<char>)
    requires
        !t.contains(slash()),
    ensures
        split_levels(s.push(slash()) + t) == split_levels(s).push(t),
    decreases t.len(),
{
    let u = s.push(slash()) + t;
    if t.len() == 0 {
        assert(u =~= s.push(slash()));
        assert(u.drop_last() =~= s);
        assert(t =~= Seq::<char>::empty());
        assert(u.last() == slash());
    } else {
        let p = t.drop_last();
        assert(!p.contains(slash())) by {
            if p.contains(slash()) {
                let k = choose|k: int| 0 <= k < p.len() && p[k] == slash();
                assert(t[k] == slash());
            }
        }
        lemma_split_append(s, p);
        assert(u.drop_last() =~= s.push(slash()) + p);
        assert(u.last() == t.last());
        assert(t.last() != slash()) by {
            assert(t[t.len() - 1] == t.last());
        }
        lemma_split_nonempty(s);
        assert(p.push(t.last()) =~= t);
        let prev = split_levels(u.drop_last());
        assert(prev == split_levels(s).push(p));
        assert(split_levels(u) == prev.update(prev.len() - 1, prev.last().push(u.last())));
        assert(split_levels(u) =~= split_levels(s).push(t));
    }
}

/// Joining pieces without `/` and splitting again gives the pieces back.
pub proof fn lemma_split_join(parts: Seq<Seq<char>>)
    requires
        parts.len() > 0,
        levels_free_of_slash(parts),
    ensures
        split_levels(join_levels(parts)) == parts,
    decreases parts.len(),
{
    if parts.len() == 1 {
        assert(!parts[0].contains(slash()));
        lemma_split_single(parts[0]);
        assert(seq![parts[0]] =~= parts);
    } else {
        let prev = parts.drop_last();
        assert(levels_free_of_slash(prev)) by {
            assert forall|i: int| 0 <= i < prev.len() implies !(#[trigger] prev[i]).contains(slash()) by {
                assert(prev[i] == parts[i]);
            }
        }
        lemma_split_join(prev);
        assert(!parts.last().contains(slash())) by {
            assert(parts[parts.len() - 1] == parts.last());
        }
        lemma_split_append(join_levels(prev), parts.last());
        assert(prev.push(parts.last()) =~= parts);
    }
}

} // verus!
