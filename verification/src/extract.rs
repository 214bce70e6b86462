//! Fields cut out of a line by a pattern with stars.
use std::marker::PhantomData;
use vstd::prelude::*;

use crate::data::Record;
use crate::data::RecordView;
use crate::data::Value;
use crate::data::ValueView;
use crate::data::last_place;
use crate::data::law_fields_put_twice;
use crate::data::law_values_become_fields;
use crate::data::values_of;
use crate::data::with_fields;
use crate::float::Notation;
use crate::numeral::int_value;
use crate::operator::UnaryPreAggOperator;
use crate::text::chars_of;
use crate::text::occurs_in;
use crate::text::replace;
use crate::text::replaced;
use crate::text::views;

verus! {

broadcast use vstd::string::group_string_axioms;

/// A compiled regular expression.
#[verifier::external_type_specification]
#[verifier::external_body]
pub struct ExRegex(regex::Regex);

/// Why a regular expression was refused.
#[verifier::external_type_specification]
#[verifier::external_body]
pub struct ExRegexError(regex::Error);

/// The text that `Regex::new` was given for a regular expression.
pub uninterp spec fn regex_source(regex: regex::Regex) -> Seq<char>;

/// How many characters a pattern may have whose regular expression is never refused.
pub const SHORT_PATTERN: usize = 1000;

/// `Regex::new` compiles a regular expression, which then stands for the text it was given.
///
/// The regular expression of a pattern is well-formed, so it is refused only where the compiled
/// program is larger than the limit of ten megabytes. How large it is depends on the machine.
/// No character of a pattern takes more than a kilobyte of it (a star takes most, with fewer
/// than twenty states), so that a pattern of up to [`SHORT_PATTERN`] characters is far below the
/// limit. Which of the longer ones are refused is left open. What follows from either outcome
/// is stated over [`compiles`].
pub assume_specification[ regex::Regex::new ](re: &str) -> (res: Result<
    regex::Regex,
    regex::Error,
>)
    ensures
        res matches Ok(regex) ==> regex_source(regex) == re@,
        forall|pattern: Seq<char>|
            re@ == #[trigger] pattern_regex(pattern) && pattern.len() <= SHORT_PATTERN
                ==> res is Ok,
;

/// Whether `compiled` may be what `Regex::new` returns for this text.
pub open spec fn compiles(
    text: Seq<char>,
    compiled: Result<regex::Regex, regex::Error>,
) -> bool {
    exists|re: &str| re@ == text && #[trigger] call_ensures(regex::Regex::new, (re,), compiled)
}

/// Whether `Regex::new` may refuse this text.
pub open spec fn refused(text: Seq<char>) -> bool {
    exists|error: regex::Error| #[trigger] compiles(text, Err(error))
}

/// The characters with a meaning of their own in a regular expression.
pub open spec fn is_meta(c: char) -> bool {
    c == '\\' || c == '.' || c == '+' || c == '*' || c == '?' || c == '(' || c == ')' || c == '|'
        || c == '[' || c == ']' || c == '{' || c == '}' || c == '^' || c == '$' || c == '#'
}

/// A character as it is written to stand for itself.
pub open spec fn escaped(c: char) -> Seq<char> {
    if is_meta(c) {
        seq!['\\', c]
    } else {
        seq![c]
    }
}

/// A text as it is written to stand for itself.
pub open spec fn quoted(text: Seq<char>) -> Seq<char>
    decreases text.len(),
{
    if text.len() == 0 {
        Seq::empty()
    } else {
        escaped(text[0]) + quoted(text.skip(1))
    }
}

/// `regex_syntax::quote`: the text with a backslash before each of the characters that have
/// a meaning of their own.
#[verifier::external_body]
fn quote(text: &str) -> (res: String)
    ensures
        res@ == quoted(text@),
{
    regex_syntax::quote(text)
}

/// How many stars a pattern has.
pub open spec fn stars(pattern: Seq<char>) -> nat
    decreases pattern.len(),
{
    if pattern.len() == 0 {
        0
    } else {
        stars(pattern.skip(1)) + if pattern[0] == '*' {
            1nat
        } else {
            0nat
        }
    }
}

/// Whether a pattern ends with a star.
pub open spec fn ends_with_star(pattern: Seq<char>) -> bool {
    pattern.len() > 0 && pattern.last() == '*'
}

/// A pattern as a regular expression, but for its end: a group that takes as few characters
/// as it can for each star, and everything else as it stands.
pub open spec fn opened(pattern: Seq<char>) -> Seq<char>
    decreases pattern.len(),
{
    if pattern.len() == 0 {
        Seq::empty()
    } else {
        (if pattern[0] == '*' {
            seq!['(', '.', '*', '?', ')']
        } else {
            escaped(pattern[0])
        }) + opened(pattern.skip(1))
    }
}

/// The regular expression of a pattern. Where the pattern ends with a star, what the last
/// group takes goes on to the end of the text.
pub open spec fn pattern_regex(pattern: Seq<char>) -> Seq<char> {
    if ends_with_star(pattern) {
        opened(pattern).push('$')
    } else {
        opened(pattern)
    }
}

/// The pattern with its stars replaced by these texts, in order.
pub open spec fn filled(pattern: Seq<char>, texts: Seq<Seq<char>>) -> Seq<char>
    decreases pattern.len(),
{
    if pattern.len() == 0 {
        Seq::empty()
    } else if pattern[0] == '*' {
        texts[0] + filled(pattern.skip(1), texts.skip(1))
    } else {
        seq![pattern[0]] + filled(pattern.skip(1), texts)
    }
}

/// Whether a text has no line break in it.
pub open spec fn on_one_line(text: Seq<char>) -> bool {
    !text.contains('\n')
}

/// Whether the line, from the character at `at` on, reads as the pattern with these texts in
/// place of its stars. Where the pattern ends with a star, so does the line.
pub open spec fn fits(pattern: Seq<char>, texts: Seq<Seq<char>>, at: int, line: Seq<char>) -> bool {
    let end = at + filled(pattern, texts).len();
    &&& texts.len() == stars(pattern)
    &&& forall|i: int| 0 <= i < texts.len() ==> on_one_line(#[trigger] texts[i])
    &&& 0 <= at
    &&& end <= line.len()
    &&& line.subrange(at, end) == filled(pattern, texts)
    &&& ends_with_star(pattern) ==> end == line.len()
}

/// Whether a pattern fits a line at all.
pub open spec fn can_fit(pattern: Seq<char>, line: Seq<char>) -> bool {
    exists|texts: Seq<Seq<char>>, at: int| fits(pattern, texts, at, line)
}

/// Whether the first of two lists of texts has the shorter text where their lengths differ
/// for the first time.
pub open spec fn shorter(a: Seq<Seq<char>>, b: Seq<Seq<char>>) -> bool {
    exists|i: int|
        {
            &&& 0 <= i < a.len()
            &&& i < b.len()
            &&& (#[trigger] a[i]).len() < b[i].len()
            &&& forall|j: int| 0 <= j < i ==> (#[trigger] a[j]).len() == b[j].len()
        }
}

/// Whether this is the way in which a pattern is fitted to a line: as far to the left as
/// possible, then with the first text as short as possible, then the second, and so on.
pub open spec fn best_fit(
    pattern: Seq<char>,
    texts: Seq<Seq<char>>,
    at: int,
    line: Seq<char>,
) -> bool {
    &&& fits(pattern, texts, at, line)
    &&& forall|others: Seq<Seq<char>>, there: int| #[trigger]
        fits(pattern, others, there, line) ==> at <= there && !(at == there && shorter(
            others,
            texts,
        ))
}

/// The texts of the capture groups but for the first, which is that of the whole match.
pub open spec fn group_texts(groups: Seq<Option<String>>) -> Seq<Seq<char>> {
    Seq::new((groups.len() - 1) as nat, |i: int| groups[i + 1]->0@)
}

/// Whether these capture groups are those of the best fit of a pattern to a line.
pub open spec fn captured(pattern: Seq<char>, groups: Seq<Option<String>>, line: Seq<char>) -> bool {
    &&& groups.len() == stars(pattern) + 1
    &&& forall|i: int| 0 <= i < groups.len() ==> (#[trigger] groups[i]) is Some
    &&& groups[0]->0@ == filled(pattern, group_texts(groups))
    &&& exists|at: int| #[trigger] best_fit(pattern, group_texts(groups), at, line)
}

/// The first match that `Regex::captures_iter` gives, with the texts of its capture groups,
/// for a regular expression of the form that [`pattern_regex`] has. The matches are the
/// leftmost-first ones: of all ways to match, the first is the one that starts furthest to
/// the left, and in it each lazy group takes as few characters as it can, the earlier groups
/// first. `.` is any character but a line break, and `$` is the end of the text. Each of the
/// groups takes part in every match.
///
/// With the features that the crate is built with, the search is the one of the Pike VM: all
/// ways to match are followed at once, character by character, in their order of preference.
#[verifier::external_body]
fn captures(regex: &regex::Regex, line: &str) -> (groups: Option<Vec<Option<String>>>)
    requires
        exists|pattern: Seq<char>| regex_source(*regex) == #[trigger] pattern_regex(pattern),
    ensures
        forall|pattern: Seq<char>|
            regex_source(*regex) == #[trigger] pattern_regex(pattern) ==> match groups {
                Some(g) => captured(pattern, g@, line@),
                None => !can_fit(pattern, line@),
            },
{
    match regex.captures_iter(line).next() {
        Some(caps) => Some(caps.iter().map(|g| g.map(|m| m.as_str().to_string())).collect()),
        None => None,
    }
}

proof fn lemma_quoted_start(text: Seq<char>)
    ensures
        quoted(text).len() > 0 ==> quoted(text)[0] != '*',
{
}

/// Quoting a pattern and then opening up its quoted stars gives the regular expression that
/// the pattern stands for, whatever characters the pattern holds.
pub proof fn law_stars_opened(pattern: Seq<char>)
    ensures
        replaced(quoted(pattern), seq!['\\', '*'], seq!['(', '.', '*', '?', ')']) == opened(
            pattern,
        ),
    decreases pattern.len(),
{
    let from = seq!['\\', '*'];
    let to = seq!['(', '.', '*', '?', ')'];
    if pattern.len() == 0 {
        assert(replaced(quoted(pattern), from, to) =~= opened(pattern));
    } else {
        let c = pattern[0];
        let rest = quoted(pattern.skip(1));
        let text = quoted(pattern);
        law_stars_opened(pattern.skip(1));
        lemma_quoted_start(pattern.skip(1));
        assert(text =~= escaped(c) + rest);
        if c == '*' {
            assert(text.take(2) =~= from);
            assert(text.skip(2) =~= rest);
        } else if is_meta(c) {
            assert(text.take(2)[1] == c);
            assert(text.skip(1) =~= seq![c] + rest);
            lemma_replaced_char(c, rest);
            assert(replaced(text, from, to) =~= seq!['\\'] + (seq![c] + replaced(rest, from, to)));
            assert(opened(pattern) =~= seq!['\\', c] + opened(pattern.skip(1)));
        } else {
            lemma_replaced_char(c, rest);
        }
    }
}

/// A character that starts no quoted star is left as it is.
proof fn lemma_replaced_char(c: char, rest: Seq<char>)
    requires
        c != '\\' || rest.len() == 0 || rest[0] != '*',
    ensures
        replaced(seq![c] + rest, seq!['\\', '*'], seq!['(', '.', '*', '?', ')']) == seq![c]
            + replaced(rest, seq!['\\', '*'], seq!['(', '.', '*', '?', ')']),
{
    let from = seq!['\\', '*'];
    let text = seq![c] + rest;
    assert(text.skip(1) =~= rest);
    if rest.len() > 0 {
        assert(text.take(2)[0] == c);
        assert(text.take(2)[1] == rest[0]);
        assert(from[0] == '\\' && from[1] == '*');
    } else {
        assert(text =~= seq![c] + rest);
    }
}

/// Writes the regular expression of a pattern.
pub fn regex_text(pattern: &str) -> (res: String)
    ensures
        res@ == pattern_regex(pattern@),
{
    let regex_str = quote(pattern);
    proof {
        reveal_strlit("\\*");
        reveal_strlit("(.*?)");
        assert("\\*"@ =~= seq!['\\', '*']);
        assert("(.*?)"@ =~= seq!['(', '.', '*', '?', ')']);
        law_stars_opened(pattern@);
    }
    let mut regex_str = replace(regex_str.as_str(), "\\*", "(.*?)");
    let chars = chars_of(pattern);
    // If it ends with a star, we need to ensure we read until the end.
    if chars.len() > 0 && chars[chars.len() - 1] == '*' {
        regex_str.push('$');
    }
    regex_str
}

/// Counts the stars of a pattern.
pub fn count_stars(pattern: &str) -> (count: usize)
    ensures
        count == stars(pattern@),
{
    let chars = chars_of(pattern);
    let mut count: usize = 0;
    let mut i: usize = 0;
    assert(chars@.skip(0) =~= chars@);
    while i < chars.len()
        invariant
            i <= chars.len(),
            count <= i,
            chars@ == pattern@,
            stars(pattern@) == count + stars(chars@.skip(i as int)),
        decreases chars.len() - i,
    {
        assert(chars@.skip(i as int).skip(1) =~= chars@.skip(i + 1));
        if chars[i] == '*' {
            count = count + 1;
        }
        i = i + 1;
    }
    count
}

/// A stage that fits a pattern to the line and puts what its stars stand for into fields.
pub struct Parse<N: Notation> {
    regex: regex::Regex,
    fields: Vec<String>,
    pattern: Ghost<Seq<char>>,
    notation: PhantomData<N>,
}

impl<N: Notation> Parse<N> {
    #[verifier::type_invariant]
    spec fn inv(self) -> bool {
        &&& regex_source(self.regex) == pattern_regex(self.pattern@)
        &&& stars(self.pattern@) == self.fields@.len()
    }

    /// The pattern.
    pub closed spec fn pattern(self) -> Seq<char> {
        self.pattern@
    }

    /// The names of the fields, one for each star.
    pub closed spec fn fields(self) -> Seq<Seq<char>> {
        views(self.fields@)
    }

    /// The text that the regular expression was compiled from.
    pub closed spec fn source(self) -> Seq<char> {
        regex_source(self.regex)
    }

    /// A stage for this pattern, with a field for each of its stars.
    ///
    /// It is refused where the number of fields is not that of the stars. Where the numbers
    /// agree, the regular expression of the pattern is compiled, and the stage is refused
    /// exactly if that is.
    pub fn new(pattern: &str, fields: Vec<String>) -> (res: Result<Parse<N>, String>)
        ensures
            stars(pattern@) != fields@.len() ==> res is Err && res->Err_0@
                == "Wrong number of extractions"@,
            stars(pattern@) == fields@.len() && pattern@.len() <= SHORT_PATTERN ==> res is Ok,
            stars(pattern@) == fields@.len() ==> exists|
                compiled: Result<regex::Regex, regex::Error>,
            | #[trigger]
                compiles(pattern_regex(pattern@), compiled) && Parse::made_from(
                    pattern@,
                    views(fields@),
                    compiled,
                    res,
                ),
    {
        let regex_str = regex_text(pattern);
        if count_stars(pattern) != fields.len() {
            Err("Wrong number of extractions".to_string())
        } else {
            let compiled = regex::Regex::new(regex_str.as_str());
            assert(compiles(pattern_regex(pattern@), compiled));
            Parse::from_compiled(pattern, fields, compiled)
        }
    }

    /// Whether `res` is the stage for a pattern and its fields, or the refusal of it, where
    /// `compiled` is what became of its regular expression.
    pub open spec fn made_from(
        pattern: Seq<char>,
        fields: Seq<Seq<char>>,
        compiled: Result<regex::Regex, regex::Error>,
        res: Result<Parse<N>, String>,
    ) -> bool {
        match compiled {
            Ok(_) => {
                &&& res is Ok
                &&& res->Ok_0.source() == pattern_regex(pattern)
                &&& res->Ok_0.pattern() == pattern
                &&& res->Ok_0.fields() == fields
            },
            Err(_) => res is Err && res->Err_0@ == "Pattern too large"@,
        }
    }

    /// The stage for this pattern, once its regular expression was compiled or refused.
    pub fn from_compiled(
        pattern: &str,
        fields: Vec<String>,
        compiled: Result<regex::Regex, regex::Error>,
    ) -> (res: Result<Parse<N>, String>)
        requires
            stars(pattern@) == fields@.len(),
            compiled matches Ok(regex) ==> regex_source(regex) == pattern_regex(pattern@),
        ensures
            Parse::made_from(pattern@, views(fields@), compiled, res),
    {
        match compiled {
            Ok(regex) => Ok(
                Parse { regex, fields, pattern: Ghost(pattern@), notation: PhantomData },
            ),
            Err(_) => Err("Pattern too large".to_string()),
        }
    }
}

impl<N: Notation> UnaryPreAggOperator for Parse<N> {
    open spec fn accepts(&self, raw: Seq<char>) -> bool {
        can_fit(self.pattern(), raw)
    }

    open spec fn produces(&self, rec: RecordView, next: RecordView) -> bool {
        exists|texts: Seq<Seq<char>>, at: int|
            {
                &&& #[trigger] best_fit(self.pattern(), texts, at, rec.raw)
                &&& texts.len() == self.fields().len()
                &&& next == with_fields(rec, self.fields(), values_of::<N>(texts))
            }
    }

    fn process(&self, rec: &Record) -> (next: Option<Record>) {
        proof {
            use_type_invariant(self);
        }
        let groups = match captures(&self.regex, rec.raw.as_str()) {
            Some(groups) => groups,
            None => {
                return None;
            },
        };
        let ghost texts = group_texts(groups@);
        let ghost names = self.fields();
        let ghost values = values_of::<N>(texts);
        let mut next = rec.clone();
        let mut i: usize = 0;
        while i < self.fields.len()
            invariant
                i <= self.fields.len(),
                groups.len() == self.fields.len() + 1,
                names == views(self.fields@),
                texts == group_texts(groups@),
                forall|j: int| 0 <= j < groups.len() ==> (#[trigger] groups@[j]) is Some,
                values == values_of::<N>(texts),
                next@ == with_fields(rec@, names.take(i as int), values.take(i as int)),
                next@.raw == rec@.raw,
            decreases self.fields.len() - i,
        {
            assert(groups@[i + 1] is Some);
            // The first group is the entire match.
            if let Some(text) = &groups[i + 1] {
                let value = Value::from_string::<N>(text.as_str());
                proof {
                    assert(texts[i as int] == text@);
                    assert(values.take(i + 1).drop_last() =~= values.take(i as int));
                    assert(names.take(i + 1).drop_last() =~= names.take(i as int));
                }
                next = next.put(self.fields[i].as_str(), value);
            }
            i = i + 1;
        }
        proof {
            assert(names.take(i as int) =~= names);
            assert(values.take(i as int) =~= values);
            let at = choose|at: int| best_fit(self.pattern(), texts, at, rec@.raw);
            assert(best_fit(self.pattern(), texts, at, rec@.raw));
            assert(fits(self.pattern(), texts, at, rec@.raw));
        }
        Some(next)
    }
}

proof fn lemma_filled_lengths(pattern: Seq<char>, a: Seq<Seq<char>>, b: Seq<Seq<char>>)
    requires
        a.len() == stars(pattern),
        b.len() == stars(pattern),
        forall|i: int| 0 <= i < a.len() ==> (#[trigger] a[i]).len() == b[i].len(),
    ensures
        filled(pattern, a).len() == filled(pattern, b).len(),
        filled(pattern, a) == filled(pattern, b) ==> a == b,
    decreases pattern.len(),
{
    if pattern.len() == 0 {
        assert(a =~= b);
    } else if pattern[0] == '*' {
        let rest = pattern.skip(1);
        assert forall|i: int| 0 <= i < a.skip(1).len() implies (#[trigger] a.skip(1)[i]).len()
            == b.skip(1)[i].len() by {
            assert(a[i + 1].len() == b[i + 1].len());
        }
        lemma_filled_lengths(rest, a.skip(1), b.skip(1));
        assert(a[0].len() == b[0].len());
        if filled(pattern, a) == filled(pattern, b) {
            let n = a[0].len() as int;
            assert(a[0] =~= filled(pattern, a).take(n));
            assert(b[0] =~= filled(pattern, b).take(n));
            assert(filled(rest, a.skip(1)) =~= filled(pattern, a).skip(n));
            assert(filled(rest, b.skip(1)) =~= filled(pattern, b).skip(n));
            assert(a =~= seq![a[0]] + a.skip(1));
            assert(b =~= seq![b[0]] + b.skip(1));
        }
    } else {
        let rest = pattern.skip(1);
        lemma_filled_lengths(rest, a, b);
        if filled(pattern, a) == filled(pattern, b) {
            assert(filled(rest, a) =~= filled(pattern, a).skip(1));
            assert(filled(rest, b) =~= filled(pattern, b).skip(1));
        }
    }
}

proof fn lemma_first_difference(a: Seq<Seq<char>>, b: Seq<Seq<char>>, n: int)
    requires
        a.len() == b.len(),
        0 <= n <= a.len(),
        !shorter(a, b),
        !shorter(b, a),
    ensures
        forall|i: int| 0 <= i < n ==> (#[trigger] a[i]).len() == b[i].len(),
    decreases n,
{
    if n > 0 {
        lemma_first_difference(a, b, n - 1);
        let k = n - 1;
        assert forall|j: int| 0 <= j < k implies (#[trigger] b[j]).len() == a[j].len() by {
            assert(a[j].len() == b[j].len());
        }
        if a[k].len() < b[k].len() {
            assert(shorter(a, b));
        }
        if b[k].len() < a[k].len() {
            assert(shorter(b, a));
        }
    }
}

/// Only a pattern that is not short can be refused for its regular expression.
pub proof fn law_refused_patterns_are_long(pattern: Seq<char>)
    requires
        refused(pattern_regex(pattern)),
    ensures
        pattern.len() > SHORT_PATTERN,
{
    let error = choose|error: regex::Error| #[trigger]
        compiles(pattern_regex(pattern), Err(error));
    let re = choose|re: &str|
        re@ == pattern_regex(pattern) && #[trigger] call_ensures(
            regex::Regex::new,
            (re,),
            Err(error),
        );
}

/// There is only one best way to fit a pattern to a line: the same texts are cut out each
/// time.
pub proof fn law_best_fit_unique(
    pattern: Seq<char>,
    line: Seq<char>,
    texts: Seq<Seq<char>>,
    at: int,
    others: Seq<Seq<char>>,
    there: int,
)
    requires
        best_fit(pattern, texts, at, line),
        best_fit(pattern, others, there, line),
    ensures
        texts == others,
        at == there,
{
    assert(fits(pattern, texts, at, line));
    assert(fits(pattern, others, there, line));
    lemma_first_difference(texts, others, texts.len() as int);
    lemma_filled_lengths(pattern, texts, others);
}

/// A record that comes out of the stage has the fields of the one that went in and those of the
/// stage, and no others. The fields that are not of the stage are as they were, and so is the
/// line.
pub proof fn law_other_fields_stay<N: Notation>(
    stage: Parse<N>,
    rec: RecordView,
    next: RecordView,
    name: Seq<char>,
)
    requires
        stage.produces(rec, next),
    ensures
        next.raw == rec.raw,
        next.data.contains_key(name) <==> rec.data.contains_key(name) || stage.fields().contains(
            name,
        ),
        !stage.fields().contains(name) ==> next.field(name) == rec.field(name),
{
    let (texts, at) = choose|texts: Seq<Seq<char>>, at: int|
        {
            &&& #[trigger] best_fit(stage.pattern(), texts, at, rec.raw)
            &&& texts.len() == stage.fields().len()
            &&& next == with_fields(rec, stage.fields(), values_of::<N>(texts))
        };
    law_values_become_fields(rec, stage.fields(), values_of::<N>(texts), name);
}

/// A record becomes one record only, and goes through the stage a second time unchanged.
pub proof fn law_second_pass_changes_nothing<N: Notation>(
    stage: Parse<N>,
    rec: RecordView,
    next: RecordView,
)
    requires
        stage.produces(rec, next),
    ensures
        stage.accepts(next.raw),
        forall|other: RecordView| #[trigger] stage.produces(rec, other) ==> other == next,
        forall|again: RecordView| #[trigger] stage.produces(next, again) <==> again == next,
{
    let names = stage.fields();
    let (texts, at) = choose|texts: Seq<Seq<char>>, at: int|
        {
            &&& #[trigger] best_fit(stage.pattern(), texts, at, rec.raw)
            &&& texts.len() == stage.fields().len()
            &&& next == with_fields(rec, stage.fields(), values_of::<N>(texts))
        };
    law_values_become_fields(rec, names, values_of::<N>(texts), Seq::empty());
    law_fields_put_twice(rec, names, values_of::<N>(texts));
    assert(best_fit(stage.pattern(), texts, at, next.raw));
    assert(fits(stage.pattern(), texts, at, next.raw));
    assert forall|other: RecordView| #[trigger] stage.produces(rec, other) implies other == next by {
        let (others, there) = choose|texts: Seq<Seq<char>>, at: int|
            {
                &&& #[trigger] best_fit(stage.pattern(), texts, at, rec.raw)
                &&& texts.len() == stage.fields().len()
                &&& other == with_fields(rec, stage.fields(), values_of::<N>(texts))
            };
        law_best_fit_unique(stage.pattern(), rec.raw, texts, at, others, there);
    }
    assert forall|again: RecordView| #[trigger] stage.produces(next, again) implies again
        == next by {
        let (others, there) = choose|texts: Seq<Seq<char>>, at: int|
            {
                &&& #[trigger] best_fit(stage.pattern(), texts, at, next.raw)
                &&& texts.len() == stage.fields().len()
                &&& again == with_fields(next, stage.fields(), values_of::<N>(texts))
            };
        law_best_fit_unique(stage.pattern(), rec.raw, texts, at, others, there);
    }
}

proof fn lemma_filled_end(pattern: Seq<char>, texts: Seq<Seq<char>>)
    requires
        ends_with_star(pattern),
        texts.len() == stars(pattern),
    ensures
        texts.len() > 0,
        texts.last().is_suffix_of(filled(pattern, texts)),
    decreases pattern.len(),
{
    let whole = filled(pattern, texts);
    let rest = pattern.skip(1);
    if pattern.len() == 1 {
        assert(stars(rest) == 0);
        assert(filled(rest, texts.skip(1)) =~= Seq::empty());
        assert(whole =~= texts[0]);
        assert(texts.last() =~= whole.subrange(0, whole.len() as int));
    } else {
        assert(rest.last() == pattern.last());
        let inner = if pattern[0] == '*' {
            texts.skip(1)
        } else {
            texts
        };
        lemma_filled_end(rest, inner);
        let tail = filled(rest, inner);
        let n = texts.last().len();
        assert(inner.last() == texts.last());
        assert(whole.subrange(whole.len() - n, whole.len() as int) =~= tail.subrange(
            tail.len() - n,
            tail.len() as int,
        ));
    }
}

/// Where a pattern ends with a star, what the last star stands for goes on to the end of the
/// line.
pub proof fn law_last_star_reads_to_the_end(
    pattern: Seq<char>,
    texts: Seq<Seq<char>>,
    at: int,
    line: Seq<char>,
)
    requires
        ends_with_star(pattern),
        fits(pattern, texts, at, line),
    ensures
        texts.len() > 0,
        texts.last().is_suffix_of(line),
{
    lemma_filled_end(pattern, texts);
    let whole = filled(pattern, texts);
    let n = texts.last().len();
    assert(whole =~= line.subrange(at, line.len() as int));
    assert(line.subrange(line.len() - n, line.len() as int) =~= whole.subrange(
        whole.len() - n,
        whole.len() as int,
    ));
}

/// A pattern without stars fits exactly the lines that contain it.
pub proof fn law_plain_pattern(pattern: Seq<char>, line: Seq<char>)
    requires
        stars(pattern) == 0,
    ensures
        can_fit(pattern, line) <==> occurs_in(pattern, line),
{
    let none = Seq::<Seq<char>>::empty();
    lemma_filled_plain(pattern, none);
    if can_fit(pattern, line) {
        let (texts, at) = choose|texts: Seq<Seq<char>>, at: int| fits(pattern, texts, at, line);
        lemma_filled_plain(pattern, texts);
        assert(line.subrange(at, at + pattern.len()) == pattern);
    }
    if occurs_in(pattern, line) {
        let at = choose|at: int|
            0 <= at <= line.len() - pattern.len() && #[trigger] line.subrange(
                at,
                at + pattern.len(),
            ) == pattern;
        if ends_with_star(pattern) {
            lemma_star_counted(pattern);
        }
        assert(fits(pattern, none, at, line));
    }
}

proof fn lemma_filled_plain(pattern: Seq<char>, texts: Seq<Seq<char>>)
    requires
        stars(pattern) == 0,
    ensures
        filled(pattern, texts) == pattern,
    decreases pattern.len(),
{
    if pattern.len() > 0 {
        lemma_filled_plain(pattern.skip(1), texts);
        assert(pattern =~= seq![pattern[0]] + pattern.skip(1));
    }
}

proof fn lemma_star_counted(pattern: Seq<char>)
    requires
        ends_with_star(pattern),
    ensures
        stars(pattern) > 0,
    decreases pattern.len(),
{
    if pattern.len() > 1 {
        assert(pattern.skip(1).last() == pattern.last());
        lemma_star_counted(pattern.skip(1));
    }
}

/// Stars are counted one by one, over any split of a pattern.
pub proof fn law_stars_counted(a: Seq<char>, b: Seq<char>, c: char)
    ensures
        stars(a + b) == stars(a) + stars(b),
        stars(seq![c]) == (if c == '*' {
            1nat
        } else {
            0nat
        }),
    decreases a.len(),
{
    if a.len() == 0 {
        assert(a + b =~= b);
    } else {
        assert((a + b).skip(1) =~= a.skip(1) + b);
        law_stars_counted(a.skip(1), b, c);
    }
    assert(seq![c].skip(1) =~= Seq::empty());
    assert(stars(seq![c].skip(1)) == 0);
}

/// A pattern is filled part by part: what is no star stays as it is, and a star becomes the
/// text for it.
pub proof fn law_filled_part_by_part(
    a: Seq<char>,
    a_texts: Seq<Seq<char>>,
    b: Seq<char>,
    b_texts: Seq<Seq<char>>,
    text: Seq<char>,
)
    requires
        a_texts.len() == stars(a),
    ensures
        filled(a + b, a_texts + b_texts) == filled(a, a_texts) + filled(b, b_texts),
        stars(a) == 0 ==> filled(a, a_texts) == a,
        filled(seq!['*'], seq![text]) == text,
    decreases a.len(),
{
    if a.len() == 0 {
        assert(a + b =~= b);
        assert(a_texts + b_texts =~= b_texts);
        assert(filled(a, a_texts) + filled(b, b_texts) =~= filled(b, b_texts));
    } else {
        let rest = a.skip(1);
        assert((a + b).skip(1) =~= rest + b);
        if a[0] == '*' {
            law_filled_part_by_part(rest, a_texts.skip(1), b, b_texts, text);
            assert((a_texts + b_texts).skip(1) =~= a_texts.skip(1) + b_texts);
            assert(filled(a + b, a_texts + b_texts) =~= filled(a, a_texts) + filled(b, b_texts));
        } else {
            law_filled_part_by_part(rest, a_texts, b, b_texts, text);
            assert(filled(a + b, a_texts + b_texts) =~= filled(a, a_texts) + filled(b, b_texts));
        }
    }
    if stars(a) == 0 {
        lemma_filled_plain(a, a_texts);
    }
    let star = seq!['*'];
    assert(star.skip(1) =~= Seq::empty());
    assert(filled(star.skip(1), seq![text].skip(1)) =~= Seq::empty());
    assert(filled(star, seq![text]) =~= text);
}

/// The regular expression of a pattern is made part by part: a lazy group for a star, a
/// backslash before a character with a meaning of its own, every other character as it is, and
/// an anchor at the end where the pattern ends with a star.
pub proof fn law_regex_part_by_part(a: Seq<char>, b: Seq<char>, c: char)
    ensures
        opened(a + b) == opened(a) + opened(b),
        opened(seq!['*']) == seq!['(', '.', '*', '?', ')'],
        c != '*' && seq![
            '\\',
            '.',
            '+',
            '?',
            '(',
            ')',
            '|',
            '[',
            ']',
            '{',
            '}',
            '^',
            '$',
            '#',
        ].contains(c) ==> opened(seq![c]) == seq!['\\', c],
        c != '*' && !seq![
            '\\',
            '.',
            '+',
            '?',
            '(',
            ')',
            '|',
            '[',
            ']',
            '{',
            '}',
            '^',
            '$',
            '#',
        ].contains(c) ==> opened(seq![c]) == seq![c],
        pattern_regex(a.push('*')) == opened(a) + seq!['(', '.', '*', '?', ')', '$'],
        c != '*' ==> pattern_regex(a.push(c)) == opened(a) + opened(seq![c]),
        pattern_regex(Seq::empty()) == Seq::<char>::empty(),
    decreases a.len(),
{
    if a.len() == 0 {
        assert(a + b =~= b);
        assert(opened(a) + opened(b) =~= opened(b));
    } else {
        assert((a + b).skip(1) =~= a.skip(1) + b);
        law_regex_part_by_part(a.skip(1), b, c);
        assert(opened(a + b) =~= opened(a) + opened(b));
    }
    lemma_opened_one(c);
    lemma_opened_one('*');
    lemma_opened_last(a, c);
    lemma_opened_last(a, '*');
    let special = seq!['\\', '.', '+', '?', '(', ')', '|', '[', ']', '{', '}', '^', '$', '#'];
    assert(special[0] == '\\' && special[1] == '.' && special[2] == '+' && special[3] == '?'
        && special[4] == '(' && special[5] == ')' && special[6] == '|' && special[7] == '['
        && special[8] == ']' && special[9] == '{' && special[10] == '}' && special[11] == '^'
        && special[12] == '$' && special[13] == '#');
    assert(pattern_regex(a.push('*')) =~= opened(a) + seq!['(', '.', '*', '?', ')', '$']);
}

proof fn lemma_opened_one(c: char)
    ensures
        opened(seq![c]) == if c == '*' {
            seq!['(', '.', '*', '?', ')']
        } else {
            escaped(c)
        },
{
    let one = seq![c];
    assert(one.skip(1) =~= Seq::empty());
    assert(opened(one.skip(1)) =~= Seq::empty());
    assert(opened(one) =~= if c == '*' {
        seq!['(', '.', '*', '?', ')']
    } else {
        escaped(c)
    });
}

proof fn lemma_opened_last(a: Seq<char>, c: char)
    ensures
        opened(a.push(c)) == opened(a) + opened(seq![c]),
    decreases a.len(),
{
    if a.len() == 0 {
        assert(a.push(c) =~= seq![c]);
        assert(opened(a) + opened(seq![c]) =~= opened(seq![c]));
    } else {
        lemma_opened_last(a.skip(1), c);
        assert(a.push(c).skip(1) =~= a.skip(1).push(c));
        assert(opened(a.push(c)) =~= opened(a) + opened(seq![c]));
    }
}

/// Where a pattern is fitted to a line, the line is something, then the pattern with its stars
/// replaced by the texts, then something, which is nothing where the pattern ends with a star.
/// No text has a line break in it.
pub proof fn law_fit_reads_the_line(
    pattern: Seq<char>,
    texts: Seq<Seq<char>>,
    at: int,
    line: Seq<char>,
)
    requires
        fits(pattern, texts, at, line),
    ensures
        texts.len() == stars(pattern),
        forall|i: int, k: int|
            0 <= i < texts.len() && 0 <= k < texts[i].len() ==> (#[trigger] texts[i][k]) != '\n',
        0 <= at <= line.len(),
        exists|behind: Seq<char>|
            line == #[trigger] (line.take(at) + filled(pattern, texts) + behind) && (pattern.len()
                > 0 && pattern[pattern.len() - 1] == '*' ==> behind.len() == 0),
{
    let whole = filled(pattern, texts);
    assert forall|i: int, k: int| 0 <= i < texts.len() && 0 <= k < texts[i].len() implies (
    #[trigger] texts[i][k]) != '\n' by {
        assert(on_one_line(texts[i]));
        assert(texts[i].contains(texts[i][k]));
    }
    let behind = line.skip(at + whole.len());
    assert(line =~= line.take(at) + whole + behind);
}

/// A pattern with one star that is not at its end: what is before the star is found as far to
/// the left as what is behind the star allows, and the star stands for what is between it and
/// the first occurrence, from there on, of what is behind the star.
pub proof fn law_star_stops_at_the_first_occurrence(
    a: Seq<char>,
    b: Seq<char>,
    texts: Seq<Seq<char>>,
    at: int,
    line: Seq<char>,
)
    requires
        stars(a) == 0,
        stars(b) == 0,
        b.len() > 0,
        best_fit(a + seq!['*'] + b, texts, at, line),
    ensures
        texts.len() == 1,
        0 <= at <= line.len(),
        line.subrange(at, at + a.len() + texts[0].len() + b.len()) == a + texts[0] + b,
        forall|k: int|
            0 <= k < texts[0].len() ==> #[trigger] line.subrange(
                at + a.len() + k,
                at + a.len() + k + b.len(),
            ) != b,
        forall|there: int, text: Seq<char>|
            0 <= there < at && there + a.len() + text.len() + b.len() <= line.len()
                && !text.contains('\n') ==> #[trigger] line.subrange(
                there,
                there + a.len() + text.len() + b.len(),
            ) != a + text + b,
{
    let pattern = a + seq!['*'] + b;
    lemma_one_star(a, b, texts[0]);
    assert(texts =~= seq![texts[0]]);
    let t = texts[0];
    assert(on_one_line(t));
    assert forall|k: int| 0 <= k < t.len() implies #[trigger] line.subrange(
        at + a.len() + k,
        at + a.len() + k + b.len(),
    ) != b by {
        if line.subrange(at + a.len() + k, at + a.len() + k + b.len()) == b {
            let text = t.take(k);
            let others = seq![text];
            lemma_one_star(a, b, text);
            let whole = a + t + b;
            assert(line.subrange(at, at + whole.len()) == whole);
            assert forall|j: int| 0 <= j < a.len() + k implies line[at + j] == (a + text)[j] by {
                assert(line.subrange(at, at + whole.len())[j] == whole[j]);
            }
            assert forall|j: int| 0 <= j < b.len() implies line[at + a.len() + k + j] == b[j] by {
                assert(line.subrange(at + a.len() + k, at + a.len() + k + b.len())[j] == b[j]);
            }
            assert(line.subrange(at, at + (a + text + b).len()) =~= a + text + b);
            assert(on_one_line(text)) by {
                if text.contains('\n') {
                    let j = choose|j: int| 0 <= j < text.len() && text[j] == '\n';
                    assert(t[j] == '\n');
                }
            }
            lemma_not_at_end(a, b);
            assert(fits(pattern, others, at, line));
            assert(others[0].len() < texts[0].len());
            assert(shorter(others, texts));
        }
    }
    assert forall|there: int, text: Seq<char>|
        0 <= there < at && there + a.len() + text.len() + b.len() <= line.len() && !text.contains(
            '\n',
        ) implies #[trigger] line.subrange(there, there + a.len() + text.len() + b.len()) != a
        + text + b by {
        if line.subrange(there, there + a.len() + text.len() + b.len()) == a + text + b {
            let others = seq![text];
            lemma_one_star(a, b, text);
            lemma_not_at_end(a, b);
            assert((a + text + b).len() == a.len() + text.len() + b.len());
            assert(fits(pattern, others, there, line));
        }
    }
}

proof fn lemma_one_star(a: Seq<char>, b: Seq<char>, text: Seq<char>)
    requires
        stars(a) == 0,
        stars(b) == 0,
    ensures
        stars(a + seq!['*'] + b) == 1,
        filled(a + seq!['*'] + b, seq![text]) == a + text + b,
{
    let none = Seq::<Seq<char>>::empty();
    let star = seq!['*'];
    law_stars_counted(a + star, b, '*');
    law_stars_counted(a, star, '*');
    law_filled_part_by_part(a, none, star, seq![text], text);
    law_filled_part_by_part(a + star, seq![text], b, none, text);
    law_filled_part_by_part(b, none, b, none, text);
    assert(none + seq![text] =~= seq![text]);
    assert(seq![text] + none =~= seq![text]);
}

proof fn lemma_not_at_end(a: Seq<char>, b: Seq<char>)
    requires
        stars(b) == 0,
        b.len() > 0,
    ensures
        !ends_with_star(a + seq!['*'] + b),
{
    if b.last() == '*' {
        lemma_star_counted(b);
    }
    assert((a + seq!['*'] + b).last() == b.last());
}

/// What a star stands for is found in the field for it: the integer that the text is the numeral
/// of, else the double that it denotes, else the text itself, as a whole. Where a name occurs
/// twice the later star counts. All other fields stay as they were.
pub proof fn law_stars_become_fields<N: Notation>(
    stage: Parse<N>,
    rec: RecordView,
    next: RecordView,
) -> (cut: (Seq<Seq<char>>, int))
    requires
        stage.produces(rec, next),
    ensures
        best_fit(stage.pattern(), cut.0, cut.1, rec.raw),
        cut.0.len() == stage.fields().len(),
        forall|i: int|
            0 <= i < cut.0.len() && (forall|j: int|
                i < j < cut.0.len() ==> stage.fields()[j] != stage.fields()[i])
                ==> next.data.contains_key(#[trigger] stage.fields()[i]) && stands_for::<N>(
                cut.0[i],
                next.data[stage.fields()[i]],
            ),
        forall|name: Seq<char>|
            !stage.fields().contains(name) ==> (next.data.contains_key(name)
                <==> #[trigger] rec.data.contains_key(name)) && (rec.data.contains_key(name)
                ==> next.data[name] == rec.data[name]),
        next.raw == rec.raw,
{
    let names = stage.fields();
    let (texts, at) = choose|texts: Seq<Seq<char>>, at: int|
        {
            &&& #[trigger] best_fit(stage.pattern(), texts, at, rec.raw)
            &&& texts.len() == stage.fields().len()
            &&& next == with_fields(rec, stage.fields(), values_of::<N>(texts))
        };
    let values = values_of::<N>(texts);
    assert forall|i: int|
        0 <= i < texts.len() && (forall|j: int|
            i < j < texts.len() ==> names[j] != names[i]) implies next.data.contains_key(
        #[trigger] names[i],
    ) && stands_for::<N>(texts[i], next.data[names[i]]) by {
        law_values_become_fields(rec, names, values, names[i]);
        assert(last_place(names, i, names[i]));
        assert(next.field(names[i]) == Some(values[i]));
    }
    assert forall|name: Seq<char>| !names.contains(name) implies (next.data.contains_key(name)
        <==> #[trigger] rec.data.contains_key(name)) && (rec.data.contains_key(name)
        ==> next.data[name] == rec.data[name]) by {
        law_values_become_fields(rec, names, values, name);
        assert(next.field(name) == rec.field(name));
    }
    law_values_become_fields(rec, names, values, Seq::empty());
    (texts, at)
}

/// Whether a value is what a text stands for.
pub open spec fn stands_for<N: Notation>(text: Seq<char>, value: ValueView) -> bool {
    match value {
        ValueView::Int(i) => int_value(text) == Some(i),
        ValueView::Float(f) => int_value(text) is None && N::double_in(text) == Some(f),
        ValueView::Str(s) => int_value(text) is None && N::double_in(text) is None && s == text,
        ValueView::Null => false,
    }
}

/// A line passes exactly where it is something, then the pattern with texts on one line in place
/// of its stars, then something, which is nothing where the pattern ends with a star.
pub proof fn law_which_lines_are_cut<N: Notation>(
    stage: Parse<N>,
    before: Seq<char>,
    texts: Seq<Seq<char>>,
    behind: Seq<char>,
)
    requires
        texts.len() == stars(stage.pattern()),
        forall|i: int| 0 <= i < texts.len() ==> !(#[trigger] texts[i]).contains('\n'),
        stage.pattern().len() > 0 && stage.pattern()[stage.pattern().len() - 1] == '*'
            ==> behind.len() == 0,
    ensures
        fits(
            stage.pattern(),
            texts,
            before.len() as int,
            before + filled(stage.pattern(), texts) + behind,
        ),
        stage.accepts(before + filled(stage.pattern(), texts) + behind),
        forall|line: Seq<char>|
            #![trigger stage.accepts(line)]
            stage.accepts(line) ==> exists|others: Seq<Seq<char>>, at: int| #[trigger]
                fits(stage.pattern(), others, at, line),
{
    let whole = filled(stage.pattern(), texts);
    let line = before + whole + behind;
    let at = before.len() as int;
    assert(line.subrange(at, at + whole.len()) =~= whole);
    assert forall|i: int| 0 <= i < texts.len() implies on_one_line(#[trigger] texts[i]) by {}
    assert(fits(stage.pattern(), texts, at, line));
}

/// Of all ways to fit a pattern to a line the one is taken that starts furthest to the left, and
/// of those with the same start the one whose text is shorter where the lengths differ for the
/// first time.
pub proof fn law_leftmost_then_shortest(
    pattern: Seq<char>,
    texts: Seq<Seq<char>>,
    at: int,
    others: Seq<Seq<char>>,
    there: int,
    line: Seq<char>,
    i: int,
)
    requires
        best_fit(pattern, texts, at, line),
        fits(pattern, others, there, line),
    ensures
        fits(pattern, texts, at, line),
        at <= there,
        at == there && 0 <= i < texts.len() && (forall|j: int|
            0 <= j < i ==> texts[j].len() == (#[trigger] others[j]).len()) ==> texts[i].len()
            <= others[i].len(),
{
    if at == there && 0 <= i < texts.len() && (forall|j: int|
        0 <= j < i ==> texts[j].len() == (#[trigger] others[j]).len()) && others[i].len()
        < texts[i].len() {
        assert(shorter(others, texts));
    }
}

/// A stage that was made has the pattern and the fields that it was asked for, and its regular
/// expression is that of the pattern. It is made exactly where the regular expression compiles.
pub proof fn law_stage_as_asked_for<N: Notation>(
    pattern: Seq<char>,
    fields: Seq<Seq<char>>,
    compiled: Result<regex::Regex, regex::Error>,
    res: Result<Parse<N>, String>,
)
    requires
        Parse::made_from(pattern, fields, compiled, res),
    ensures
        compiled is Ok <==> res is Ok,
        res matches Ok(stage) ==> stage.pattern() == pattern && stage.fields() == fields
            && stage.source() == pattern_regex(pattern),
        res matches Err(message) ==> message@ == "Pattern too large"@,
{
}

} // verus!
