//! Character-level text utilities: the engine works on `Vec<char>` internally,
//! and every operation here is specified over `Seq<char>`.

use vstd::prelude::*;

verus! {

/// The characters that count as whitespace when splitting words and trimming,
/// mirroring Rust's `char::is_whitespace` table.
pub open spec fn is_space_char(c: char) -> bool {
    ||| c == ' '
    ||| c == '\t'
    ||| c == '\n'
    ||| c == '\u{000B}'
    ||| c == '\u{000C}'
    ||| c == '\r'
    ||| c == '\u{0085}'
    ||| c == '\u{00A0}'
    ||| c == '\u{1680}'
    ||| (c as u32 >= 0x2000 && c as u32 <= 0x200A)
    ||| c == '\u{2028}'
    ||| c == '\u{2029}'
    ||| c == '\u{202F}'
    ||| c == '\u{205F}'
    ||| c == '\u{3000}'
}

#[verifier::when_used_as_spec(is_space_char)]
pub fn is_space(c: char) -> (r: bool)
    ensures
        r == is_space_char(c),
{
    c == ' ' || c == '\t' || c == '\n' || c == '\u{000B}' || c == '\u{000C}' || c == '\r'
        || c == '\u{0085}' || c == '\u{00A0}' || c == '\u{1680}' || (c as u32 >= 0x2000 && c as u32
        <= 0x200A) || c == '\u{2028}' || c == '\u{2029}' || c == '\u{202F}' || c == '\u{205F}' || c
        == '\u{3000}'
}

/// The characters of a string slice, in order.
pub fn to_chars(s: &str) -> (r: Vec<char>)
    ensures
        r@ == s@,
{
    let n = s.unicode_len();
    let mut r: Vec<char> = Vec::new();
    let mut i: usize = 0;
    while i < n
        invariant
            i <= n,
            n == s@.len(),
            r@ == s@.take(i as int),
        decreases n - i,
    {
        r.push(s.get_char(i));
        i = i + 1;
        proof {
            assert(r@ =~= s@.take(i as int));
        }
    }
    proof {
        assert(r@ =~= s@);
    }
    r
}

/// Relies on `String::from_iter` over `Iterator::copied`: the returned string
/// holds exactly the characters of `v`, in order.
#[verifier::external_body]
pub fn to_text(v: &Vec<char>) -> (r: String)
    ensures
        r@ == v@,
{
    v.iter().copied().collect()
}

/// What `str::to_lowercase` returns for a non-empty string: its Unicode
/// lowercase form, a function of its characters alone.
pub uninterp spec fn lower_raw(s: Seq<char>) -> Seq<char>;

/// The Unicode lowercase form of a string: an empty string stays empty, and
/// a non-empty one lowers to its (named, not defined) lowercase form.
pub open spec fn lower_of(s: Seq<char>) -> Seq<char> {
    if s.len() == 0 {
        Seq::empty()
    } else {
        lower_raw(s)
    }
}

/// Relies on `str::to_lowercase`: the result depends on the characters of
/// `s` alone, and an empty string stays empty.
#[verifier::external_body]
pub fn lowercase(s: &str) -> (r: String)
    ensures
        r@ == lower_of(s@),
        s@.len() > 0 ==> r@ == lower_raw(s@),
{
    s.to_lowercase()
}

/// Appends every character of `src` to `out`.
pub fn push_all(out: &mut Vec<char>, src: &Vec<char>)
    ensures
        final(out)@ == old(out)@ + src@,
{
    let mut i: usize = 0;
    while i < src.len()
        invariant
            i <= src@.len(),
            out@ == old(out)@ + src@.take(i as int),
        decreases src@.len() - i,
    {
        out.push(src[i]);
        i = i + 1;
        proof {
            assert(out@ =~= old(out)@ + src@.take(i as int));
        }
    }
    proof {
        assert(old(out)@ + src@.take(src@.len() as int) =~= old(out)@ + src@);
    }
}

/// Whether the characters of `a` equal the characters of `b`.
pub fn chars_eq(a: &Vec<char>, b: &Vec<char>) -> (r: bool)
    ensures
        r == (a@ == b@),
{
    if a.len() != b.len() {
        proof {
            assert(a@ != b@);
        }
        return false;
    }
    let mut i: usize = 0;
    while i < a.len()
        invariant
            i <= a@.len(),
            a@.len() == b@.len(),
            forall|j: int| 0 <= j < i ==> a@[j] == b@[j],
        decreases a@.len() - i,
    {
        if a[i] != b[i] {
            return false;
        }
        i = i + 1;
    }
    proof {
        assert(a@ =~= b@);
    }
    true
}

/// Whether `pat` occurs in `s` starting at position `at`.
pub open spec fn matches_at(s: Seq<char>, pat: Seq<char>, at: int) -> bool {
    0 <= at && at + pat.len() <= s.len() && s.subrange(at, at + pat.len()) == pat
}

/// Whether `pat` occurs anywhere in `s`.
pub open spec fn contains_sub(s: Seq<char>, pat: Seq<char>) -> bool {
    exists|i: int| matches_at(s, pat, i)
}

fn eq_at(s: &Vec<char>, pat: &Vec<char>, at: usize) -> (r: bool)
    requires
        at + pat@.len() <= s@.len(),
    ensures
        r == matches_at(s@, pat@, at as int),
{
    let mut i: usize = 0;
    while i < pat.len()
        invariant
            i <= pat.len(),
            at + pat.len() <= s.len(),
            forall|j: int| 0 <= j < i ==> s@[at + j] == pat@[j],
        decreases pat@.len() - i,
    {
        if s[at + i] != pat[i] {
            proof {
                assert(s@.subrange(at as int, at + pat@.len())[i as int] != pat@[i as int]);
            }
            return false;
        }
        i = i + 1;
    }
    proof {
        assert(s@.subrange(at as int, at + pat@.len()) =~= pat@);
    }
    true
}

/// Whether `pat` occurs anywhere in `s`.
pub fn find_sub(s: &Vec<char>, pat: &Vec<char>) -> (r: bool)
    ensures
        r == contains_sub(s@, pat@),
{
    if pat.len() == 0 {
        proof {
            assert(s@.subrange(0, 0) =~= pat@);
            assert(matches_at(s@, pat@, 0));
        }
        return true;
    }
    if pat.len() > s.len() {
        proof {
            assert(forall|i: int| !matches_at(s@, pat@, i));
        }
        return false;
    }
    let mut i: usize = 0;
    while i <= s.len() - pat.len()
        invariant
            0 < pat.len() <= s.len(),
            i <= s.len() - pat.len() + 1,
            forall|j: int| 0 <= j < i ==> !matches_at(s@, pat@, j),
        decreases s@.len() - i,
    {
        if eq_at(s, pat, i) {
            return true;
        }
        i = i + 1;
    }
    proof {
        assert(forall|j: int| matches_at(s@, pat@, j) ==> 0 <= j <= s@.len() - pat@.len());
    }
    false
}

/// `s` with every non-overlapping occurrence of `from` replaced by `to`,
/// scanning left to right; an empty `from` matches at every position,
/// as `str::replace` has it.
pub open spec fn replace_all(s: Seq<char>, from: Seq<char>, to: Seq<char>) -> Seq<char>
    decreases s.len(),
{
    if from.len() == 0 {
        if s.len() == 0 {
            to
        } else {
            to + seq![s[0]] + replace_all(s.skip(1), from, to)
        }
    } else if s.len() < from.len() {
        s
    } else if s.subrange(0, from.len() as int) == from {
        to + replace_all(s.skip(from.len() as int), from, to)
    } else {
        seq![s[0]] + replace_all(s.skip(1), from, to)
    }
}

/// With an empty `from`, a replacement both begins the result and follows
/// every character, so the result always starts with `to`.
proof fn lemma_replace_empty_from(s: Seq<char>, from: Seq<char>, to: Seq<char>)
    requires
        from.len() == 0,
    ensures
        replace_all(s, from, to) == to + replace_all(s, from, to).skip(to.len() as int),
{
    if s.len() == 0 {
        assert(replace_all(s, from, to) == to);
        assert(to + to.skip(to.len() as int) =~= to);
    } else {
        let rest = seq![s[0]] + replace_all(s.skip(1), from, to);
        assert(replace_all(s, from, to) == to + rest);
        assert((to + rest).skip(to.len() as int) =~= rest);
    }
}

/// Replaces every occurrence of `from` in `s` by `to`.
pub fn replace_chars(s: &Vec<char>, from: &Vec<char>, to: &Vec<char>) -> (r: Vec<char>)
    ensures
        r@ == replace_all(s@, from@, to@),
{
    let mut out: Vec<char> = Vec::new();
    if from.len() == 0 {
        push_all(&mut out, to);
        proof {
            assert(s@.skip(0) =~= s@);
            lemma_replace_empty_from(s@, from@, to@);
        }
        let mut i: usize = 0;
        while i < s.len()
            invariant
                i <= s@.len(),
                from@.len() == 0,
                replace_all(s@, from@, to@) == out@ + replace_all(
                    s@.skip(i as int),
                    from@,
                    to@,
                ).skip(to@.len() as int),
            decreases s@.len() - i,
        {
            proof {
                let tail = s@.skip(i as int);
                assert(tail.len() > 0);
                assert(tail[0] == s@[i as int]);
                assert(tail.skip(1) =~= s@.skip(i + 1));
                let next = replace_all(s@.skip(i + 1), from@, to@);
                assert(replace_all(tail, from@, to@) == to@ + seq![s@[i as int]] + next);
                assert((to@ + seq![s@[i as int]] + next).skip(to@.len() as int) =~= seq![
                    s@[i as int],
                ] + next);
                lemma_replace_empty_from(s@.skip(i + 1), from@, to@);
                assert(out@ + (seq![s@[i as int]] + next) =~= (out@ + seq![s@[i as int]] + to@)
                    + next.skip(to@.len() as int));
            }
            out.push(s[i]);
            push_all(&mut out, to);
            i = i + 1;
        }
        proof {
            assert(s@.skip(s@.len() as int) =~= Seq::<char>::empty());
            assert(replace_all(Seq::<char>::empty(), from@, to@) == to@);
            assert(to@.skip(to@.len() as int) =~= Seq::<char>::empty());
            assert(out@ =~= out@ + Seq::<char>::empty());
        }
        return out;
    }
    proof {
        assert(s@.skip(0) =~= s@);
    }
    let mut i: usize = 0;
    while i < s.len()
        invariant
            i <= s@.len(),
            from@.len() > 0,
            replace_all(s@, from@, to@) == out@ + replace_all(s@.skip(i as int), from@, to@),
        decreases s@.len() - i,
    {
        if from.len() <= s.len() - i && eq_at(s, from, i) {
            proof {
                assert(s@.skip(i as int).subrange(0, from@.len() as int) =~= s@.subrange(
                    i as int,
                    i + from@.len(),
                ));
                assert(s@.skip(i as int).skip(from@.len() as int) =~= s@.skip(i + from@.len()));
                assert(replace_all(s@.skip(i as int), from@, to@) == to@ + replace_all(
                    s@.skip(i + from@.len()),
                    from@,
                    to@,
                ));
            }
            push_all(&mut out, to);
            i = i + from.len();
        } else {
            proof {
                let tail = s@.skip(i as int);
                if tail.len() >= from@.len() {
                    assert(tail.subrange(0, from@.len() as int) =~= s@.subrange(
                        i as int,
                        i + from@.len(),
                    ));
                    assert(tail.subrange(0, from@.len() as int) != from@);
                }
                assert(tail.skip(1) =~= s@.skip(i + 1));
                if tail.len() < from@.len() {
                    assert(replace_all(tail, from@, to@) == tail);
                    assert(tail =~= seq![s@[i as int]] + replace_all(s@.skip(i + 1), from@, to@));
                } else {
                    assert(replace_all(tail, from@, to@) == seq![s@[i as int]] + replace_all(
                        s@.skip(i + 1),
                        from@,
                        to@,
                    ));
                }
            }
            out.push(s[i]);
            i = i + 1;
        }
        proof {
            assert(out@ + replace_all(s@.skip(i as int), from@, to@) =~= replace_all(
                s@,
                from@,
                to@,
            ));
        }
    }
    proof {
        assert(s@.skip(s@.len() as int) =~= Seq::<char>::empty());
        assert(out@ =~= out@ + Seq::<char>::empty());
    }
    out
}

/// `s` without its leading whitespace.
pub open spec fn trim_start_spec(s: Seq<char>) -> Seq<char>
    decreases s.len(),
{
    if s.len() > 0 && is_space_char(s[0]) {
        trim_start_spec(s.skip(1))
    } else {
        s
    }
}

/// `s` without its trailing whitespace.
pub open spec fn trim_end_spec(s: Seq<char>) -> Seq<char>
    decreases s.len(),
{
    if s.len() > 0 && is_space_char(s[s.len() - 1]) {
        trim_end_spec(s.take(s.len() - 1))
    } else {
        s
    }
}

/// `s` without leading and trailing whitespace.
pub open spec fn trimmed(s: Seq<char>) -> Seq<char> {
    trim_end_spec(trim_start_spec(s))
}

/// Removes leading and trailing whitespace.
pub fn trim_chars(s: &Vec<char>) -> (r: Vec<char>)
    ensures
        r@ == trimmed(s@),
{
    let mut a: usize = 0;
    proof {
        assert(s@.skip(0) =~= s@);
    }
    while a < s.len() && is_space(s[a])
        invariant
            a <= s.len(),
            trim_start_spec(s@) == trim_start_spec(s@.skip(a as int)),
        decreases s@.len() - a,
    {
        proof {
            assert(s@.skip(a as int).skip(1) =~= s@.skip(a + 1));
        }
        a = a + 1;
    }
    proof {
        assert(trim_start_spec(s@) == s@.skip(a as int));
    }
    let mut b: usize = s.len();
    proof {
        assert(s@.subrange(a as int, b as int) =~= s@.skip(a as int));
    }
    while b > a && is_space(s[b - 1])
        invariant
            a <= b <= s.len(),
            trim_end_spec(s@.skip(a as int)) == trim_end_spec(s@.subrange(a as int, b as int)),
        decreases b,
    {
        proof {
            let part = s@.subrange(a as int, b as int);
            assert(part[part.len() - 1] == s@[b - 1]);
            assert(part.take(part.len() - 1) =~= s@.subrange(a as int, b - 1));
        }
        b = b - 1;
    }
    proof {
        assert(trim_end_spec(s@.subrange(a as int, b as int)) == s@.subrange(a as int, b as int));
    }
    let mut out: Vec<char> = Vec::new();
    let mut i: usize = a;
    while i < b
        invariant
            a <= i <= b <= s.len(),
            out@ == s@.subrange(a as int, i as int),
        decreases b - i,
    {
        out.push(s[i]);
        i = i + 1;
        proof {
            assert(out@ =~= s@.subrange(a as int, i as int));
        }
    }
    out
}

/// The pieces of `s` between non-overlapping occurrences of the separator
/// `sep`, scanning left to right; `n` separators give `n + 1` pieces, and
/// empty pieces are kept, as `str::split` has it.
pub open spec fn split_sub(s: Seq<char>, sep: Seq<char>) -> Seq<Seq<char>>
    decreases s.len(),
{
    if sep.len() == 0 || s.len() < sep.len() {
        seq![s]
    } else if s.subrange(0, sep.len() as int) == sep {
        seq![Seq::<char>::empty()] + split_sub(s.skip(sep.len() as int), sep)
    } else {
        let r = split_sub(s.skip(1), sep);
        seq![seq![s[0]] + r[0]] + r.skip(1)
    }
}

pub proof fn lemma_split_sub_nonempty(s: Seq<char>, sep: Seq<char>)
    ensures
        split_sub(s, sep).len() >= 1,
    decreases s.len(),
{
    if sep.len() == 0 || s.len() < sep.len() {
    } else if s.subrange(0, sep.len() as int) == sep {
        lemma_split_sub_nonempty(s.skip(sep.len() as int), sep);
    } else {
        lemma_split_sub_nonempty(s.skip(1), sep);
    }
}

/// Splits `s` on every occurrence of `sep`.
pub fn split_on(s: &Vec<char>, sep: &Vec<char>) -> (r: Vec<Vec<char>>)
    requires
        sep@.len() > 0,
    ensures
        r.deep_view() == split_sub(s@, sep@),
{
    let mut out: Vec<Vec<char>> = Vec::new();
    let mut cur: Vec<char> = Vec::new();
    let mut i: usize = 0;
    proof {
        assert(s@.skip(0) =~= s@);
        lemma_split_sub_nonempty(s@, sep@);
        assert(split_sub(s@, sep@) =~~= out.deep_view() + seq![cur@ + split_sub(s@, sep@)[0]]
            + split_sub(s@, sep@).skip(1));
    }
    while i < s.len()
        invariant
            i <= s.len(),
            sep@.len() > 0,
            split_sub(s@, sep@) == out.deep_view() + seq![
                cur@ + split_sub(s@.skip(i as int), sep@)[0],
            ] + split_sub(s@.skip(i as int), sep@).skip(1),
        decreases s@.len() - i,
    {
        let ghost tail = s@.skip(i as int);
        let ghost pre_out = out.deep_view();
        let ghost pre_cur = cur@;
        if sep.len() <= s.len() - i && eq_at(s, sep, i) {
            proof {
                assert(tail.subrange(0, sep@.len() as int) =~= s@.subrange(
                    i as int,
                    i + sep@.len(),
                ));
                assert(tail.skip(sep@.len() as int) =~= s@.skip(i + sep@.len()));
                assert(split_sub(tail, sep@) == seq![Seq::<char>::empty()] + split_sub(
                    s@.skip(i + sep@.len()),
                    sep@,
                ));
                lemma_split_sub_nonempty(s@.skip(i + sep@.len()), sep@);
            }
            out.push(cur);
            cur = Vec::new();
            i = i + sep.len();
            proof {
                let next = split_sub(s@.skip(i as int), sep@);
                assert(out.deep_view() =~~= pre_out.push(pre_cur + Seq::<char>::empty()));
                assert(split_sub(s@, sep@) =~~= out.deep_view() + seq![cur@ + next[0]] + next.skip(
                    1,
                ));
            }
        } else {
            proof {
                if tail.len() >= sep@.len() {
                    assert(tail.subrange(0, sep@.len() as int) =~= s@.subrange(
                        i as int,
                        i + sep@.len(),
                    ));
                }
                assert(tail.skip(1) =~= s@.skip(i + 1));
                let r = split_sub(s@.skip(i + 1), sep@);
                lemma_split_sub_nonempty(s@.skip(i + 1), sep@);
                if tail.len() < sep@.len() {
                    // one piece left either way: consuming one character moves it
                    // from the tail into `cur`
                    assert(split_sub(tail, sep@) == seq![tail]);
                    assert(r == seq![tail.skip(1)]);
                    assert(seq![seq![tail[0]] + r[0]] + r.skip(1) =~~= seq![tail]);
                } else {
                    assert(split_sub(tail, sep@) == seq![seq![tail[0]] + r[0]] + r.skip(1));
                }
            }
            let c = s[i];
            cur.push(c);
            i = i + 1;
            proof {
                let next = split_sub(s@.skip(i as int), sep@);
                assert(cur@ =~= pre_cur + seq![s@[i - 1]]);
                assert(pre_cur + (seq![s@[i - 1]] + next[0]) =~= cur@ + next[0]);
                assert(split_sub(s@, sep@) =~~= out.deep_view() + seq![cur@ + next[0]] + next.skip(
                    1,
                ));
            }
        }
    }
    proof {
        assert(s@.skip(s@.len() as int) =~= Seq::<char>::empty());
        assert(split_sub(Seq::<char>::empty(), sep@) == seq![Seq::<char>::empty()]);
        assert(cur@ + Seq::<char>::empty() =~= cur@);
    }
    let ghost pre_out = out.deep_view();
    let ghost pre_cur = cur@;
    out.push(cur);
    proof {
        assert(out.deep_view() =~~= pre_out.push(pre_cur));
        assert(split_sub(s@, sep@) =~~= out.deep_view());
    }
    out
}

/// The clause connectors on which a sentence is cut into phrases.
pub open spec fn is_clause_char(c: char) -> bool {
    c == '.' || c == ',' || c == '?'
}

/// The pieces of `s` between clause connector characters; `n` connectors give
/// `n + 1` pieces, and empty pieces are kept.
pub open spec fn split_clauses(s: Seq<char>) -> Seq<Seq<char>>
    decreases s.len(),
{
    if s.len() == 0 {
        seq![s]
    } else if is_clause_char(s[0]) {
        seq![Seq::<char>::empty()] + split_clauses(s.skip(1))
    } else {
        let r = split_clauses(s.skip(1));
        seq![seq![s[0]] + r[0]] + r.skip(1)
    }
}

pub proof fn lemma_split_clauses_nonempty(s: Seq<char>)
    ensures
        split_clauses(s).len() >= 1,
    decreases s.len(),
{
    if s.len() == 0 {
    } else {
        lemma_split_clauses_nonempty(s.skip(1));
    }
}

/// Splits `s` on every clause connector character.
pub fn split_clause_chars(s: &Vec<char>) -> (r: Vec<Vec<char>>)
    ensures
        r.deep_view() == split_clauses(s@),
{
    let mut out: Vec<Vec<char>> = Vec::new();
    let mut cur: Vec<char> = Vec::new();
    let mut i: usize = 0;
    proof {
        assert(s@.skip(0) =~= s@);
        lemma_split_clauses_nonempty(s@);
        assert(split_clauses(s@) =~~= out.deep_view() + seq![cur@ + split_clauses(s@)[0]]
            + split_clauses(s@).skip(1));
    }
    while i < s.len()
        invariant
            i <= s.len(),
            split_clauses(s@) == out.deep_view() + seq![
                cur@ + split_clauses(s@.skip(i as int))[0],
            ] + split_clauses(s@.skip(i as int)).skip(1),
        decreases s@.len() - i,
    {
        let ghost tail = s@.skip(i as int);
        let ghost pre_out = out.deep_view();
        let ghost pre_cur = cur@;
        let c = s[i];
        proof {
            assert(tail[0] == s@[i as int]);
            assert(tail.skip(1) =~= s@.skip(i + 1));
            lemma_split_clauses_nonempty(s@.skip(i + 1));
        }
        if c == '.' || c == ',' || c == '?' {
            out.push(cur);
            cur = Vec::new();
            i = i + 1;
            proof {
                let next = split_clauses(s@.skip(i as int));
                assert(split_clauses(tail) == seq![Seq::<char>::empty()] + next);
                assert(out.deep_view() =~~= pre_out.push(pre_cur + Seq::<char>::empty()));
                assert(split_clauses(s@) =~~= out.deep_view() + seq![cur@ + next[0]] + next.skip(
                    1,
                ));
            }
        } else {
            cur.push(c);
            i = i + 1;
            proof {
                let next = split_clauses(s@.skip(i as int));
                assert(split_clauses(tail) == seq![seq![tail[0]] + next[0]] + next.skip(1));
                assert(cur@ =~= pre_cur + seq![s@[i - 1]]);
                assert(pre_cur + (seq![s@[i - 1]] + next[0]) =~= cur@ + next[0]);
                assert(split_clauses(s@) =~~= out.deep_view() + seq![cur@ + next[0]] + next.skip(
                    1,
                ));
            }
        }
    }
    proof {
        assert(s@.skip(s@.len() as int) =~= Seq::<char>::empty());
        assert(cur@ + Seq::<char>::empty() =~= cur@);
    }
    let ghost pre_out = out.deep_view();
    let ghost pre_cur = cur@;
    out.push(cur);
    proof {
        assert(out.deep_view() =~~= pre_out.push(pre_cur));
        assert(split_clauses(s@) =~~= out.deep_view());
    }
    out
}

/// The whitespace-delimited words of `s`, in order; runs of whitespace
/// produce no empty words, as `str::split_whitespace` has it.
pub open spec fn words_of(s: Seq<char>) -> Seq<Seq<char>>
    decreases s.len(),
{
    if s.len() == 0 {
        Seq::empty()
    } else if is_space_char(s[0]) {
        words_of(s.skip(1))
    } else {
        let r = words_of(s.skip(1));
        if s.len() > 1 && !is_space_char(s[1]) {
            seq![seq![s[0]] + r[0]] + r.skip(1)
        } else {
            seq![seq![s[0]]] + r
        }
    }
}

/// A maximal run `p` of non-whitespace characters at the front of a text is
/// its first word.
proof fn lemma_words_word_prefix(p: Seq<char>, q: Seq<char>)
    requires
        p.len() > 0,
        forall|i: int| 0 <= i < p.len() ==> !is_space_char(p[i]),
        q.len() == 0 || is_space_char(q[0]),
    ensures
        words_of(p + q) == seq![p] + (if q.len() == 0 {
            Seq::<Seq<char>>::empty()
        } else {
            words_of(q.skip(1))
        }),
    decreases p.len(),
{
    let s = p + q;
    assert(s[0] == p[0]);
    if p.len() == 1 {
        assert(s.skip(1) =~= q);
        if q.len() == 0 {
            assert(s.skip(1) =~= Seq::<char>::empty());
            assert(words_of(s) == seq![seq![s[0]]] + words_of(Seq::<char>::empty()));
            assert(words_of(s) =~~= seq![p]);
        } else {
            assert(s.len() > 1 && is_space_char(s[1]));
            assert(words_of(s) == seq![seq![s[0]]] + words_of(q));
            assert(words_of(q) == words_of(q.skip(1)));
            assert(seq![s[0]] =~= p);
        }
    } else {
        assert(s.len() > 1 && !is_space_char(s[1]));
        assert(s.skip(1) =~= p.skip(1) + q);
        lemma_words_word_prefix(p.skip(1), q);
        let r = words_of(p.skip(1) + q);
        assert(r[0] == p.skip(1));
        assert(seq![s[0]] + r[0] =~= p);
        assert(words_of(s) =~~= seq![p] + r.skip(1));
        assert(r.skip(1) =~~= (if q.len() == 0 {
            Seq::<Seq<char>>::empty()
        } else {
            words_of(q.skip(1))
        }));
    }
}

/// Splits `s` into its whitespace-delimited words.
pub fn words_chars(s: &Vec<char>) -> (r: Vec<Vec<char>>)
    ensures
        r.deep_view() == words_of(s@),
{
    let mut out: Vec<Vec<char>> = Vec::new();
    let mut cur: Vec<char> = Vec::new();
    let mut i: usize = 0;
    proof {
        assert(s@.skip(0) =~= s@);
        assert(cur@ + s@.skip(0) =~= s@);
    }
    while i < s.len()
        invariant
            i <= s.len(),
            forall|j: int| 0 <= j < cur@.len() ==> !is_space_char(cur@[j]),
            words_of(s@) == out.deep_view() + words_of(cur@ + s@.skip(i as int)),
        decreases s@.len() - i,
    {
        let ghost tail = s@.skip(i as int);
        let ghost pre_out = out.deep_view();
        let ghost pre_cur = cur@;
        let c = s[i];
        proof {
            assert(tail[0] == s@[i as int]);
            assert(tail.skip(1) =~= s@.skip(i + 1));
        }
        if is_space(c) {
            if cur.len() > 0 {
                proof {
                    lemma_words_word_prefix(pre_cur, tail);
                }
                out.push(cur);
                cur = Vec::new();
                proof {
                    assert(out.deep_view() =~~= pre_out.push(pre_cur));
                }
            } else {
                proof {
                    assert(pre_cur + tail =~= tail);
                }
            }
            i = i + 1;
            proof {
                assert(cur@ + s@.skip(i as int) =~= s@.skip(i as int));
                assert(words_of(tail) == words_of(s@.skip(i as int)));
            }
        } else {
            cur.push(c);
            i = i + 1;
            proof {
                assert(pre_cur + tail =~= cur@ + s@.skip(i as int));
            }
        }
    }
    proof {
        assert(s@.skip(s@.len() as int) =~= Seq::<char>::empty());
    }
    if cur.len() > 0 {
        let ghost pre_out = out.deep_view();
        let ghost pre_cur = cur@;
        proof {
            assert(pre_cur + s@.skip(s@.len() as int) =~= pre_cur);
            lemma_words_word_prefix(pre_cur, Seq::<char>::empty());
            assert(pre_cur + Seq::<char>::empty() =~= pre_cur);
        }
        out.push(cur);
        proof {
            assert(out.deep_view() =~~= pre_out.push(pre_cur));
            assert(words_of(s@) =~~= out.deep_view());
        }
    } else {
        proof {
            assert(cur@ + s@.skip(s@.len() as int) =~= Seq::<char>::empty());
            assert(words_of(Seq::<char>::empty()) =~~= Seq::<Seq<char>>::empty());
            assert(words_of(s@) =~~= out.deep_view());
        }
    }
    out
}

/// How many times `c` occurs in `s`.
pub open spec fn count_char(s: Seq<char>, c: char) -> int
    decreases s.len(),
{
    if s.len() == 0 {
        0
    } else {
        count_char(s.drop_last(), c) + if s.last() == c {
            1int
        } else {
            0int
        }
    }
}

proof fn lemma_count_char_bound(s: Seq<char>, c: char)
    ensures
        0 <= count_char(s, c) <= s.len(),
    decreases s.len(),
{
    if s.len() > 0 {
        lemma_count_char_bound(s.drop_last(), c);
    }
}

/// Counts the occurrences of `c` in `s`.
pub fn count_occurrences(s: &Vec<char>, c: char) -> (n: usize)
    ensures
        n == count_char(s@, c),
{
    let mut n: usize = 0;
    let mut i: usize = 0;
    while i < s.len()
        invariant
            i <= s.len(),
            n == count_char(s@.take(i as int), c),
            0 <= n <= i,
        decreases s@.len() - i,
    {
        proof {
            let t = s@.take(i + 1);
            assert(t.drop_last() =~= s@.take(i as int));
            assert(t.last() == s@[i as int]);
            lemma_count_char_bound(s@.take(i as int), c);
        }
        if s[i] == c {
            n = n + 1;
        }
        i = i + 1;
    }
    proof {
        assert(s@.take(s@.len() as int) =~= s@);
    }
    n
}

/// The decimal digits.
pub open spec fn is_digit_char(c: char) -> bool {
    c as u32 >= 48 && c as u32 <= 57
}

/// The value of one decimal digit.
pub open spec fn digit_val(c: char) -> int {
    c as u32 - 48
}

/// The value of `s` read as a decimal numeral.
pub open spec fn digits_value(s: Seq<char>) -> int
    decreases s.len(),
{
    if s.len() == 0 {
        0
    } else {
        digits_value(s.drop_last()) * 10 + digit_val(s.last())
    }
}

/// Whether every character of `s` is a decimal digit.
pub open spec fn all_digits(s: Seq<char>) -> bool {
    forall|i: int| 0 <= i < s.len() ==> is_digit_char(s[i])
}

/// The capture index named by `s`: the value of `s` as a decimal numeral,
/// provided `s` is a non-empty digit string whose value fits in `usize`,
/// as `str::parse::<usize>` accepts it.
pub open spec fn parse_index_spec(s: Seq<char>) -> Option<int> {
    if s.len() > 0 && all_digits(s) && digits_value(s) <= usize::MAX {
        Some(digits_value(s))
    } else {
        None
    }
}

proof fn lemma_digits_value_nonneg(s: Seq<char>)
    requires
        all_digits(s),
    ensures
        digits_value(s) >= 0,
    decreases s.len(),
{
    if s.len() > 0 {
        assert(forall|i: int| 0 <= i < s.drop_last().len() ==> is_digit_char(s.drop_last()[i]));
        lemma_digits_value_nonneg(s.drop_last());
    }
}

/// Extending a digit string to the right can only increase its value.
proof fn lemma_digits_value_monotone(s: Seq<char>, k: int)
    requires
        all_digits(s),
        0 <= k <= s.len(),
    ensures
        digits_value(s) >= digits_value(s.take(k)),
    decreases s.len() - k,
{
    if k < s.len() {
        lemma_digits_value_monotone(s, k + 1);
        let t = s.take(k + 1);
        assert(t.drop_last() =~= s.take(k));
        assert(forall|i: int| 0 <= i < t.len() ==> is_digit_char(t[i]));
        lemma_digits_value_nonneg(t.drop_last());
        assert(digits_value(t) == digits_value(s.take(k)) * 10 + digit_val(t.last()));
        assert(digits_value(s.take(k)) * 10 >= digits_value(s.take(k)));
        assert(digit_val(t.last()) >= 0);
    } else {
        assert(s.take(k) =~= s);
    }
}

/// Reads `w` as a decimal capture index, if it is one.
pub fn parse_capture_index(w: &Vec<char>) -> (r: Option<usize>)
    ensures
        match r {
            Some(n) => parse_index_spec(w@) == Some(n as int),
            None => parse_index_spec(w@) is None,
        },
{
    if w.len() == 0 {
        return None;
    }
    let mut acc: usize = 0;
    let mut i: usize = 0;
    while i < w.len()
        invariant
            i <= w.len(),
            acc == digits_value(w@.take(i as int)),
            all_digits(w@.take(i as int)),
        decreases w@.len() - i,
    {
        let c = w[i];
        let cu = c as u32;
        proof {
            let t = w@.take(i + 1);
            assert(t.drop_last() =~= w@.take(i as int));
            assert(t.last() == w@[i as int]);
        }
        if cu < 48 || cu > 57 {
            proof {
                assert(!is_digit_char(w@[i as int]));
                assert(!all_digits(w@));
            }
            return None;
        }
        let d = (cu - 48) as usize;
        let next = match acc.checked_mul(10) {
            Some(x) => x.checked_add(d),
            None => None,
        };
        match next {
            Some(v) => {
                acc = v;
                i = i + 1;
                proof {
                    assert(all_digits(w@.take(i as int)));
                }
            },
            None => {
                proof {
                    let t = w@.take(i + 1);
                    assert(digits_value(t) == acc * 10 + d);
                    assert(digits_value(t) > usize::MAX);
                    if all_digits(w@) {
                        lemma_digits_value_monotone(w@, i + 1);
                        assert(digits_value(w@) > usize::MAX);
                    }
                }
                return None;
            },
        }
    }
    proof {
        assert(w@.take(w@.len() as int) =~= w@);
    }
    Some(acc)
}

} // verus!
