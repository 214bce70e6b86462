//! Strings as sequences of characters: copies, order, replacement.
use vstd::prelude::*;

verus! {

broadcast use vstd::string::group_string_axioms;

/// `String::push` adds one character at the end of the string.
pub assume_specification[ String::push ](text: &mut String, c: char)
    ensures
        final(text)@ == old(text)@.push(c),
;

/// Whether `needle` occurs in `hay` as a run of consecutive characters.
pub open spec fn occurs_in(needle: Seq<char>, hay: Seq<char>) -> bool {
    exists|i: int|
        0 <= i <= hay.len() - needle.len() && #[trigger] hay.subrange(i, i + needle.len())
            == needle
}

/// The characters of a string.
pub fn chars_of(text: &str) -> (chars: Vec<char>)
    ensures
        chars@ == text@,
{
    let mut chars: Vec<char> = Vec::new();
    for c in it: text.chars()
        invariant
            it.seq() == text@,
            chars@ == text@.take(it.index()),
    {
        chars.push(c);
        assert(text@.take(it.index() + 1) =~= text@.take(it.index()).push(c));
    }
    assert(text@.take(text@.len() as int) =~= text@);
    chars
}

/// The string made of these characters.
pub fn string_of(chars: &Vec<char>) -> (text: String)
    ensures
        text@ == chars@,
{
    let mut text = String::new();
    let mut i: usize = 0;
    while i < chars.len()
        invariant
            i <= chars.len(),
            text@ == chars@.take(i as int),
        decreases chars.len() - i,
    {
        text.push(chars[i]);
        assert(chars@.take(i + 1) =~= chars@.take(i as int).push(chars@[i as int]));
        i = i + 1;
    }
    assert(chars@.take(chars@.len() as int) =~= chars@);
    text
}

/// Tells whether a string occurs in another one.
pub fn contains(hay: &str, needle: &str) -> (found: bool)
    ensures
        found == occurs_in(needle@, hay@),
{
    let chars = chars_of(hay);
    let wanted = chars_of(needle);
    let mut i: usize = 0;
    while i <= chars.len() && chars.len() - i >= wanted.len()
        invariant
            i <= chars.len() + 1,
            chars@ == hay@,
            wanted@ == needle@,
            forall|j: int|
                0 <= j < i && j <= hay@.len() - needle@.len() ==> #[trigger] hay@.subrange(
                    j,
                    j + needle@.len(),
                ) != needle@,
        decreases chars.len() + 1 - i,
    {
        let mut k: usize = 0;
        while k < wanted.len() && chars[i + k] == wanted[k]
            invariant
                k <= wanted.len(),
                i + wanted.len() <= chars.len(),
                forall|j: int| 0 <= j < k ==> chars@[i + j] == #[trigger] wanted@[j],
            decreases wanted.len() - k,
        {
            k = k + 1;
        }
        let ghost part = hay@.subrange(i as int, i + needle@.len());
        if k == wanted.len() {
            assert(part =~= needle@);
            return true;
        }
        assert(part[k as int] != needle@[k as int]);
        i = i + 1;
    }
    false
}

/// The views of a list of strings.
pub open spec fn views(texts: Seq<String>) -> Seq<Seq<char>> {
    Seq::new(texts.len(), |i: int| texts[i]@)
}

/// A list with a copy of each string.
pub fn copies(texts: &Vec<String>) -> (res: Vec<String>)
    ensures
        views(res@) == views(texts@),
{
    let mut res: Vec<String> = Vec::new();
    let mut i: usize = 0;
    while i < texts.len()
        invariant
            i <= texts.len(),
            res.len() == i,
            forall|j: int| 0 <= j < i ==> #[trigger] res@[j]@ == texts@[j]@,
        decreases texts.len() - i,
    {
        res.push(texts[i].clone());
        i = i + 1;
    }
    assert(views(res@) =~= views(texts@));
    res
}

/// Whether two lists hold the same strings in the same order.
pub fn same_texts(a: &Vec<String>, b: &Vec<String>) -> (same: bool)
    ensures
        same == (views(a@) == views(b@)),
{
    if a.len() != b.len() {
        assert(views(a@).len() != views(b@).len());
        return false;
    }
    let mut i: usize = 0;
    while i < a.len()
        invariant
            i <= a.len(),
            a.len() == b.len(),
            forall|j: int| 0 <= j < i ==> #[trigger] a@[j]@ == b@[j]@,
        decreases a.len() - i,
    {
        if a[i] != b[i] {
            assert(views(a@)[i as int] != views(b@)[i as int]);
            return false;
        }
        i = i + 1;
    }
    assert(views(a@) =~= views(b@));
    true
}

/// `a < b` of strings: by the first character in which they differ, a string before every
/// longer one that starts with it.
pub open spec fn lex_less(a: Seq<char>, b: Seq<char>) -> bool
    decreases a.len(),
{
    if b.len() == 0 {
        false
    } else if a.len() == 0 {
        true
    } else if a[0] != b[0] {
        a[0] < b[0]
    } else {
        lex_less(a.skip(1), b.skip(1))
    }
}

/// The order of strings is transitive.
pub proof fn lemma_lex_transitive(a: Seq<char>, b: Seq<char>, c: Seq<char>)
    requires
        lex_less(a, b),
        lex_less(b, c),
    ensures
        lex_less(a, c),
    decreases a.len(),
{
    if a.len() > 0 && a[0] == b[0] && b[0] == c[0] {
        lemma_lex_transitive(a.skip(1), b.skip(1), c.skip(1));
    }
}

/// No string is before itself.
pub proof fn lemma_lex_irreflexive(a: Seq<char>)
    ensures
        !lex_less(a, a),
    decreases a.len(),
{
    if a.len() > 0 {
        lemma_lex_irreflexive(a.skip(1));
    }
}

/// Of two different strings one is before the other.
pub proof fn lemma_lex_total(a: Seq<char>, b: Seq<char>)
    ensures
        a == b || lex_less(a, b) || lex_less(b, a),
    decreases a.len(),
{
    if a.len() == 0 {
        if b.len() == 0 {
            assert(a =~= b);
        }
    } else if b.len() > 0 && a[0] == b[0] {
        lemma_lex_total(a.skip(1), b.skip(1));
        if a.skip(1) == b.skip(1) {
            assert(a =~= seq![a[0]] + a.skip(1));
            assert(b =~= seq![b[0]] + b.skip(1));
        }
    }
}

/// Compares two strings.
pub fn text_less(a: &str, b: &str) -> (less: bool)
    ensures
        less == lex_less(a@, b@),
{
    let x = chars_of(a);
    let y = chars_of(b);
    let mut i: usize = 0;
    assert(x@.skip(0) =~= x@ && y@.skip(0) =~= y@);
    while i < x.len() && i < y.len()
        invariant
            i <= x.len(),
            i <= y.len(),
            x@ == a@,
            y@ == b@,
            lex_less(a@, b@) == lex_less(x@.skip(i as int), y@.skip(i as int)),
        decreases x.len() - i,
    {
        if x[i] != y[i] {
            return x[i] < y[i];
        }
        assert(x@.skip(i as int).skip(1) =~= x@.skip(i + 1));
        assert(y@.skip(i as int).skip(1) =~= y@.skip(i + 1));
        i = i + 1;
    }
    i < y.len()
}

/// The text with every occurrence of `from` replaced by `to`, found from left to right, none
/// overlapping another.
pub open spec fn replaced(text: Seq<char>, from: Seq<char>, to: Seq<char>) -> Seq<char>
    decreases text.len(),
{
    if from.len() == 0 || text.len() < from.len() {
        text
    } else if text.take(from.len() as int) == from {
        to + replaced(text.skip(from.len() as int), from, to)
    } else {
        seq![text[0]] + replaced(text.skip(1), from, to)
    }
}

/// Replaces every occurrence of `from`, which is not empty.
pub fn replace(text: &str, from: &str, to: &str) -> (res: String)
    requires
        from@.len() > 0,
    ensures
        res@ == replaced(text@, from@, to@),
{
    let chars = chars_of(text);
    let wanted = chars_of(from);
    let mut res = String::new();
    let mut i: usize = 0;
    assert(chars@.skip(0) =~= chars@);
    assert(res@ + replaced(chars@, from@, to@) =~= replaced(text@, from@, to@));
    while i < chars.len() && chars.len() - i >= wanted.len()
        invariant
            i <= chars.len(),
            wanted@ == from@,
            from@.len() > 0,
            res@ + replaced(chars@.skip(i as int), from@, to@) == replaced(text@, from@, to@),
        decreases chars.len() - i,
    {
        let ghost rest = chars@.skip(i as int);
        let mut k: usize = 0;
        while k < wanted.len() && chars[i + k] == wanted[k]
            invariant
                k <= wanted.len(),
                i + wanted.len() <= chars.len(),
                forall|j: int| 0 <= j < k ==> chars@[i + j] == #[trigger] wanted@[j],
            decreases wanted.len() - k,
        {
            k = k + 1;
        }
        let ghost done = res@;
        if k == wanted.len() {
            assert(rest.take(from@.len() as int) =~= from@);
            res.append(to);
            assert(rest.skip(from@.len() as int) =~= chars@.skip(i + k));
            assert(done + replaced(rest, from@, to@) =~= res@ + replaced(
                chars@.skip(i + k),
                from@,
                to@,
            ));
            i = i + k;
        } else {
            assert(rest.take(from@.len() as int)[k as int] != from@[k as int]);
            res.push(chars[i]);
            assert(rest.skip(1) =~= chars@.skip(i + 1));
            assert(done + replaced(rest, from@, to@) =~= res@ + replaced(
                chars@.skip(i + 1),
                from@,
                to@,
            ));
            i = i + 1;
        }
    }
    let ghost tail = chars@.skip(i as int);
    let ghost done = res@;
    assert(replaced(tail, from@, to@) == tail);
    while i < chars.len()
        invariant
            i <= chars.len(),
            res@ + chars@.skip(i as int) == done + tail,
        decreases chars.len() - i,
    {
        res.push(chars[i]);
        assert(chars@.skip(i as int) =~= seq![chars@[i as int]] + chars@.skip(i + 1));
        assert(res@ + chars@.skip(i + 1) =~= done + tail);
        i = i + 1;
    }
    assert(res@ =~= done + tail);
    res
}

/// A text occurs in another one exactly where the other is that text with something before it
/// and something behind it.
pub proof fn law_occurrence(needle: Seq<char>, hay: Seq<char>)
    ensures
        occurs_in(needle, hay) <==> exists|before: Seq<char>, behind: Seq<char>|
            hay == #[trigger] (before + needle + behind),
{
    if occurs_in(needle, hay) {
        let i = choose|i: int|
            0 <= i <= hay.len() - needle.len() && #[trigger] hay.subrange(i, i + needle.len())
                == needle;
        assert(hay =~= hay.take(i) + needle + hay.skip(i + needle.len()));
    }
    if exists|before: Seq<char>, behind: Seq<char>| hay == #[trigger] (before + needle + behind) {
        let (before, behind) = choose|before: Seq<char>, behind: Seq<char>|
            hay == #[trigger] (before + needle + behind);
        let i = before.len() as int;
        assert(hay.subrange(i, i + needle.len()) =~= needle);
    }
}

/// The views of a list are those of its strings, one for one and in order.
pub proof fn law_views(texts: Seq<String>)
    ensures
        views(texts).len() == texts.len(),
        forall|i: int| 0 <= i < texts.len() ==> #[trigger] views(texts)[i] == texts[i]@,
{
}

/// Of two texts the one that has the smaller character where they differ for the first time
/// comes first, and a text comes before every longer one that it starts.
pub proof fn law_first_difference_decides(
    same: Seq<char>,
    a: Seq<char>,
    b: Seq<char>,
)
    ensures
        b.len() > 0 ==> lex_less(same, same + b),
        !lex_less(same + a, same),
        a.len() > 0 && b.len() > 0 && a[0] != b[0] ==> (lex_less(same + a, same + b) <==> a[0]
            < b[0]),
    decreases same.len(),
{
    if same.len() == 0 {
        assert(same + a =~= a);
        assert(same + b =~= b);
    } else {
        let rest = same.skip(1);
        assert((same + a).skip(1) =~= rest + a);
        assert((same + b).skip(1) =~= rest + b);
        law_first_difference_decides(rest, a, b);
    }
}

/// A text in which nothing is to be replaced stays as it is. Else the first occurrence is
/// replaced, what is before it stays, and the same is done with what is behind it.
pub proof fn law_first_occurrence_replaced(
    before: Seq<char>,
    from: Seq<char>,
    behind: Seq<char>,
    to: Seq<char>,
)
    requires
        from.len() > 0,
    ensures
        !occurs_in(from, before) ==> replaced(before, from, to) == before,
        (forall|i: int|
            0 <= i < before.len() ==> #[trigger] (before + from + behind).subrange(
                i,
                i + from.len(),
            ) != from) ==> replaced(before + from + behind, from, to) == before + to + replaced(
            behind,
            from,
            to,
        ),
    decreases before.len(),
{
    let all = before + from + behind;
    let n = from.len() as int;
    if before.len() == 0 {
        assert(all.take(n) =~= from);
        assert(all.skip(n) =~= behind);
        assert(before + to + replaced(behind, from, to) =~= to + replaced(behind, from, to));
    } else {
        let rest = before.skip(1);
        law_first_occurrence_replaced(rest, from, behind, to);
        assert(all.skip(1) =~= rest + from + behind);
        if forall|i: int| 0 <= i < before.len() ==> #[trigger] all.subrange(i, i + n) != from {
            assert(all.subrange(0, 0 + n) != from);
            assert(all.subrange(0, 0 + n) =~= all.take(n));
            assert forall|i: int| 0 <= i < rest.len() implies #[trigger] (rest + from
                + behind).subrange(i, i + n) != from by {
                assert((rest + from + behind).subrange(i, i + n) =~= all.subrange(
                    i + 1,
                    i + 1 + n,
                ));
            }
            let tail = replaced(behind, from, to);
            assert(replaced(all, from, to) == seq![all[0]] + replaced(all.skip(1), from, to));
            assert(seq![all[0]] + (rest + to + tail) =~= before + to + tail);
        }
        if !occurs_in(from, before) {
            if occurs_in(from, rest) {
                let i = choose|i: int|
                    0 <= i <= rest.len() - from.len() && #[trigger] rest.subrange(
                        i,
                        i + from.len(),
                    ) == from;
                assert(before.subrange(i + 1, i + 1 + n) =~= from);
            }
            if before.len() >= n {
                assert(before.subrange(0, 0 + n) != from);
                assert(before.subrange(0, 0 + n) =~= before.take(n));
                assert(seq![before[0]] + rest =~= before);
            }
        }
    }
}

} // verus!
