//! The names that are made for a run from its game, its category and its
//! metadata.

use crate::run_metadata::{RunMetadata, RunMetadataView};
use crate::text::names;
use std::borrow::Cow;
use vstd::prelude::*;
use vstd::string::StringExecFns;

verus! {

/// Whether `unicase::eq` finds `left` and `right` equal: equal after
/// Unicode case folding.
pub uninterp spec fn caseless_eq(left: Seq<char>, right: Seq<char>) -> bool;

/// Whether every character of `text` is an ASCII character.
pub open spec fn is_ascii_text(text: Seq<char>) -> bool {
    forall|i: int| 0 <= i < text.len() ==> '\0' <= #[trigger] text[i] <= '\u{7f}'
}

/// `c` in lower case, where it is an ASCII letter in upper case.
pub open spec fn ascii_lowercase(c: char) -> char {
    if 'A' <= c <= 'Z' {
        ((c as u32) + 32) as char
    } else {
        c
    }
}

/// Whether `left` and `right` differ at most in the case of their ASCII
/// letters.
pub open spec fn eq_ignoring_ascii_case(left: Seq<char>, right: Seq<char>) -> bool {
    &&& left.len() == right.len()
    &&& forall|i: int|
        0 <= i < left.len() ==> ascii_lowercase(#[trigger] left[i]) == ascii_lowercase(right[i])
}

/// Calls `unicase::eq`, which compares two strings after Unicode case
/// folding. The result is a function of the two strings. Where both are
/// ASCII, `unicase` compares them with `eq_ignore_ascii_case`: they are
/// equal when they differ at most in the case of their letters.
#[verifier::external_body]
fn eq_ignoring_case(left: &str, right: &str) -> (equal: bool)
    ensures
        equal == caseless_eq(left@, right@),
        is_ascii_text(left@) && is_ascii_text(right@) ==> equal == eq_ignoring_ascii_case(
            left@,
            right@,
        ),
{
    unicase::eq(left, right)
}

/// Whether `left` and `right` are equal when case is ignored.
pub fn equals_ignoring_case(left: &str, right: &str) -> (equal: bool)
    ensures
        equal == caseless_eq(left@, right@),
        is_ascii_text(left@) && is_ascii_text(right@) ==> equal == eq_ignoring_ascii_case(
            left@,
            right@,
        ),
{
    eq_ignoring_case(left, right)
}

/// `text` without the characters `c` at its end.
pub open spec fn trimmed_end(text: Seq<char>, c: char) -> Seq<char>
    decreases text.len(),
{
    if text.len() > 0 && text.last() == c {
        trimmed_end(text.drop_last(), c)
    } else {
        text
    }
}

/// What is left of a text where `end` is just behind its last character
/// that is not `c`.
proof fn lemma_trimmed_end(text: Seq<char>, c: char, end: int)
    requires
        0 <= end <= text.len(),
        forall|j: int| end <= j < text.len() ==> text[j] == c,
        end == 0 || text[end - 1] != c,
    ensures
        trimmed_end(text, c) == text.subrange(0, end),
    decreases text.len() - end,
{
    if end == text.len() {
        assert(text.subrange(0, end) =~= text);
    } else {
        let shorter = text.drop_last();
        assert(text.last() == c);
        lemma_trimmed_end(shorter, c, end);
        assert(shorter.subrange(0, end) =~= text.subrange(0, end));
    }
}

/// `name` without the question marks at its end.
pub fn trim_question_marks(name: &str) -> (trimmed: &str)
    ensures
        trimmed@ == trimmed_end(name@, '?'),
{
    let len = name.unicode_len();
    let mut end: usize = 0;
    let mut i: usize = 0;
    for c in it: name.chars()
        invariant
            it.seq() == name@,
            len == name@.len(),
            i == it.index(),
            end <= i,
            forall|j: int| end <= j < i ==> name@[j] == '?',
            end == 0 || name@[end - 1] != '?',
    {
        i += 1;
        if c != '?' {
            end = i;
        }
    }
    proof {
        lemma_trimmed_end(name@, '?', end as int);
    }
    name.substring_char(0, end)
}

/// What a variable adds to a category name, where `is_yes` and `is_no` say
/// whether its value is a yes or a no. A yes gives the name of the
/// variable, without the question marks at its end. A no gives "No " and
/// the value. Any other value stands for itself.
pub open spec fn rendered(name: Seq<char>, value: Seq<char>, is_yes: bool, is_no: bool) -> Seq<
    char,
> {
    if is_yes {
        trimmed_end(name, '?')
    } else if is_no {
        "No "@ + value
    } else {
        value
    }
}

/// What a variable adds to a category name. Its value is a yes where it is
/// "yes" when case is ignored, and a no where it is "no".
pub open spec fn variable_text(name: Seq<char>, value: Seq<char>) -> Seq<char> {
    rendered(name, value, caseless_eq(value, "yes"@), caseless_eq(value, "no"@))
}

/// What a variable adds to a category name, where `is_yes` and `is_no` say
/// whether its value is a yes or a no.
pub fn render_variable(name: &str, value: &str, is_yes: bool, is_no: bool) -> (text: String)
    ensures
        text@ == rendered(name@, value@, is_yes, is_no),
{
    if is_yes {
        trim_question_marks(name).to_owned()
    } else if is_no {
        let mut text = "No ".to_owned();
        text.append(value);
        text
    } else {
        value.to_owned()
    }
}

/// What the platform adds to a category name: its name, with " Emulator"
/// behind it where an emulator is used; "Emulator" alone where the
/// platform has no name; nothing where neither is known.
pub open spec fn platform_values(platform: Seq<char>, uses_emulator: bool) -> Seq<Seq<char>> {
    if platform.len() > 0 && uses_emulator {
        seq![platform + " Emulator"@]
    } else if platform.len() > 0 {
        seq![platform]
    } else if uses_emulator {
        seq!["Emulator"@]
    } else {
        Seq::empty()
    }
}

/// What the variables add to a category name, one text for each.
pub open spec fn variable_values(variables: Seq<(Seq<char>, Seq<char>)>) -> Seq<Seq<char>> {
    Seq::new(variables.len(), |i: int| variable_text(variables[i].0, variables[i].1))
}

/// The values that are added to a category name: those of the variables,
/// then the region, then the platform, each only where it is asked for.
pub open spec fn extension_values(
    metadata: RunMetadataView,
    show_region: bool,
    show_platform: bool,
    show_variables: bool,
) -> Seq<Seq<char>> {
    (if show_variables {
        variable_values(metadata.variables)
    } else {
        Seq::empty()
    }) + (if show_region && metadata.region_name.len() > 0 {
        seq![metadata.region_name]
    } else {
        Seq::empty()
    }) + (if show_platform {
        platform_values(metadata.platform_name, metadata.uses_emulator)
    } else {
        Seq::empty()
    })
}

/// The values that are added to a category name: those of the variables,
/// then the region, then the platform, each only where it is asked for.
pub fn collect_extension_values(
    metadata: &RunMetadata,
    show_region: bool,
    show_platform: bool,
    show_variables: bool,
) -> (values: Vec<String>)
    ensures
        names(values@) == extension_values(
            metadata@,
            show_region,
            show_platform,
            show_variables,
        ),
{
    let mut values: Vec<String> = Vec::new();
    let ghost variables = metadata@.variables;
    if show_variables {
        let count = metadata.variable_count();
        let mut i: usize = 0;
        while i < count
            invariant
                variables == metadata@.variables,
                count == variables.len(),
                i <= count,
                values@.len() == i,
                names(values@) == variable_values(variables).take(i as int),
            decreases count - i,
        {
            let (name, value) = metadata.variable(i);
            let is_yes = eq_ignoring_case(value, "yes");
            let is_no = eq_ignoring_case(value, "no");
            let text = render_variable(name, value, is_yes, is_no);
            let ghost before = names(values@);
            values.push(text);
            proof {
                let after = names(values@);
                let target = variable_values(variables).take(i + 1);
                assert forall|j: int| 0 <= j < after.len() implies after[j] == target[j] by {
                    if j < i {
                        assert(after[j] == before[j]);
                        assert(before[j] == variable_values(variables).take(i as int)[j]);
                    } else {
                        assert(after[j] == text@);
                        assert(target[j] == variable_text(variables[j].0, variables[j].1));
                    }
                }
                assert(after =~= target);
            }
            i += 1;
        }
        proof {
            assert(variable_values(variables).take(count as int) =~= variable_values(variables));
        }
    }
    let ghost from_variables = names(values@);
    if show_region {
        let region = metadata.region_name();
        if !region.is_empty() {
            values.push(region.to_owned());
        }
    }
    let ghost from_region = names(values@);
    proof {
        assert(from_region =~= from_variables + (if show_region && metadata@.region_name.len()
            > 0 {
            seq![metadata@.region_name]
        } else {
            Seq::empty()
        }));
    }
    if show_platform {
        let platform = metadata.platform_name();
        let uses_emulator = metadata.uses_emulator();
        if !platform.is_empty() {
            let mut text = platform.to_owned();
            if uses_emulator {
                text.append(" Emulator");
            }
            values.push(text);
        } else if uses_emulator {
            values.push("Emulator".to_owned());
        }
    }
    proof {
        assert(names(values@) =~= from_region + (if show_platform {
            platform_values(metadata@.platform_name, metadata@.uses_emulator)
        } else {
            Seq::empty()
        }));
    }
    values
}

/// The first place at or after `from` at which `text` holds `c`, or the
/// length of `text` where there is none.
pub open spec fn index_of(text: Seq<char>, c: char, from: int) -> int
    decreases text.len() - from,
{
    if from < 0 || from >= text.len() {
        text.len() as int
    } else if text[from] == c {
        from
    } else {
        index_of(text, c, from + 1)
    }
}

/// The first place at which a character stands is its index.
proof fn lemma_index_of(text: Seq<char>, c: char, from: int, i: int)
    requires
        0 <= from <= i <= text.len(),
        forall|j: int| from <= j < i ==> text[j] != c,
        i < text.len() ==> text[i] == c,
    ensures
        index_of(text, c, from) == i,
    decreases i - from,
{
    if from < i {
        lemma_index_of(text, c, from + 1, i);
    }
}

/// `values`, with ", " between one and the next.
pub open spec fn joined(values: Seq<Seq<char>>) -> Seq<char>
    decreases values.len(),
{
    if values.len() == 0 {
        Seq::empty()
    } else if values.len() == 1 {
        values[0]
    } else {
        joined(values.drop_last()) + ", "@ + values.last()
    }
}

/// The category name with `values` in parentheses. Where the name has a
/// pair of parentheses, from its first `(` to the first `)` behind that,
/// the values go to the end of what is in them, each behind ", ", and what
/// follows the pair stays behind them. Where the pair holds nothing, " ("
/// stands before the first value. Where the name has no such pair, the
/// values stand at its end in a pair of their own. A name that is empty
/// stays empty, and without values the name stays as it is.
pub open spec fn extended(category: Seq<char>, values: Seq<Seq<char>>) -> Seq<char> {
    let open = index_of(category, '(', 0);
    let close = index_of(category, ')', open);
    if category.len() == 0 || values.len() == 0 {
        category
    } else if open < category.len() && close < category.len() {
        category.subrange(0, close) + (if close == open + 1 {
            " ("@
        } else {
            ", "@
        }) + joined(values) + category.subrange(close, category.len() as int)
    } else {
        category + " ("@ + joined(values) + ")"@
    }
}

/// Appends `values` to `text`, with ", " between one and the next.
fn push_joined(text: &mut String, values: &Vec<String>)
    ensures
        final(text)@ == old(text)@ + joined(names(values@)),
{
    let ghost all = names(values@);
    let mut k: usize = 0;
    proof {
        assert(all.take(0) =~= Seq::empty());
        assert(text@ =~= old(text)@ + joined(all.take(0)));
    }
    while k < values.len()
        invariant
            all == names(values@),
            k <= values@.len(),
            text@ == old(text)@ + joined(all.take(k as int)),
        decreases values@.len() - k,
    {
        let ghost before = text@;
        if k > 0 {
            text.append(", ");
        }
        text.append(values[k].as_str());
        proof {
            let shorter = all.take(k as int);
            let longer = all.take(k + 1);
            assert(longer.drop_last() =~= shorter);
            assert(longer.last() == values@[k as int]@);
            if k == 0 {
                assert(joined(shorter) =~= Seq::empty());
                assert(text@ =~= old(text)@ + joined(longer));
            } else {
                assert(text@ =~= old(text)@ + (joined(shorter) + ", "@ + longer.last()));
            }
        }
        k += 1;
    }
    proof {
        assert(all.take(k as int) =~= all);
    }
}

/// The category name with `values` in parentheses: inside the parentheses
/// that the name has, or in new ones at its end.
pub fn extend_category_name<'a>(category: &'a str, values: &Vec<String>) -> (name: Cow<'a, str>)
    ensures
        name@ == extended(category@, names(values@)),
{
    if category.is_empty() || values.len() == 0 {
        return Cow::Borrowed(category);
    }
    let ghost text = category@;
    let len = category.unicode_len();
    let mut open: usize = len;
    let mut close: usize = len;
    let mut i: usize = 0;
    for c in it: category.chars()
        invariant
            it.seq() == text,
            text == category@,
            len == text.len(),
            i == it.index(),
            open == len || open < i,
            close == len || (open <= close < i),
            open == len ==> close == len,
            open == len ==> forall|j: int| 0 <= j < i ==> text[j] != '(',
            open < len ==> text[open as int] == '(' && forall|j: int|
                0 <= j < open ==> text[j] != '(',
            open < len && close == len ==> forall|j: int| open <= j < i ==> text[j] != ')',
            close < len ==> text[close as int] == ')' && forall|j: int|
                open <= j < close ==> text[j] != ')',
    {
        if open == len {
            if c == '(' {
                open = i;
            }
        } else if close == len {
            if c == ')' {
                close = i;
            }
        }
        i += 1;
    }
    proof {
        lemma_index_of(text, '(', 0, open as int);
        if open < len {
            lemma_index_of(text, ')', open as int, close as int);
        }
    }
    if close < len {
        let mut name = category.substring_char(0, close).to_owned();
        if close == open + 1 {
            name.append(" (");
        } else {
            name.append(", ");
        }
        push_joined(&mut name, values);
        name.append(category.substring_char(close, len));
        Cow::Owned(name)
    } else {
        let mut name = category.to_owned();
        name.append(" (");
        push_joined(&mut name, values);
        name.append(")");
        Cow::Owned(name)
    }
}

/// The category name with the values of the metadata that are asked for:
/// those of the variables, the region and the platform.
pub fn extended_category_name<'a>(
    category: &'a str,
    metadata: &RunMetadata,
    show_region: bool,
    show_platform: bool,
    show_variables: bool,
) -> (name: Cow<'a, str>)
    ensures
        name@ == extended(
            category@,
            extension_values(metadata@, show_region, show_platform, show_variables),
        ),
{
    if category.is_empty() {
        return Cow::Borrowed(category);
    }
    let values = collect_extension_values(metadata, show_region, show_platform, show_variables);
    extend_category_name(category, &values)
}

/// The name of a game and a category together: "Game - Category", and the
/// one alone where the other is empty.
pub open spec fn full_name(game: Seq<char>, category: Seq<char>) -> Seq<char> {
    if category.len() == 0 {
        game
    } else if game.len() == 0 {
        category
    } else {
        game + " - "@ + category
    }
}

/// The name of a game and a category together.
pub fn join_names<'a>(game: &'a str, category: Cow<'a, str>) -> (name: Cow<'a, str>)
    ensures
        name@ == full_name(game@, category@),
{
    let is_empty = match &category {
        Cow::Borrowed(borrowed) => borrowed.is_empty(),
        Cow::Owned(owned) => owned.as_str().is_empty(),
    };
    if is_empty {
        Cow::Borrowed(game)
    } else if game.is_empty() {
        category
    } else {
        let mut name = game.to_owned();
        name.append(" - ");
        match &category {
            Cow::Borrowed(borrowed) => name.append(borrowed),
            Cow::Owned(owned) => name.append(owned.as_str()),
        }
        Cow::Owned(name)
    }
}

/// Whether a character has no place in the name of a file.
pub open spec fn is_forbidden(c: char) -> bool {
    c == '\\' || c == '/' || c == ':' || c == '*' || c == '?' || c == '"' || c == '<' || c == '>'
        || c == '|'
}

/// `text` without the characters that have no place in the name of a
/// file.
pub open spec fn file_name_of(text: Seq<char>) -> Seq<char>
    decreases text.len(),
{
    if text.len() == 0 {
        Seq::empty()
    } else if is_forbidden(text.last()) {
        file_name_of(text.drop_last())
    } else {
        file_name_of(text.drop_last()).push(text.last())
    }
}

/// `name` without the characters that have no place in the name of a
/// file.
pub fn to_file_name(name: &str) -> (file_name: String)
    ensures
        file_name@ == file_name_of(name@),
{
    let mut file_name = String::new();
    proof {
        assert(name@.take(0) =~= Seq::empty());
    }
    for c in it: name.chars()
        invariant
            it.seq() == name@,
            file_name@ == file_name_of(name@.take(it.index() as int)),
    {
        proof {
            let i = it.index() as int;
            assert(name@.take(i + 1).drop_last() =~= name@.take(i));
            assert(name@.take(i + 1).last() == c);
        }
        if c != '\\' && c != '/' && c != ':' && c != '*' && c != '?' && c != '"' && c != '<' && c
            != '>' && c != '|' {
            file_name.push(c);
        }
    }
    proof {
        assert(name@.take(name@.len() as int) =~= name@);
    }
    file_name
}

/// A file name holds no character that has no place in it, and every other
/// character of the text is in it.
pub proof fn lemma_file_name_of(text: Seq<char>)
    ensures
        forall|i: int|
            0 <= i < file_name_of(text).len() ==> !is_forbidden(#[trigger] file_name_of(text)[i]),
        forall|i: int|
            0 <= i < text.len() && !is_forbidden(#[trigger] text[i]) ==> file_name_of(
                text,
            ).contains(text[i]),
    decreases text.len(),
{
    if text.len() > 0 {
        let shorter = text.drop_last();
        lemma_file_name_of(shorter);
        let name = file_name_of(text);
        assert forall|i: int| 0 <= i < text.len() && !is_forbidden(
            #[trigger] text[i],
        ) implies name.contains(text[i]) by {
            if i < shorter.len() {
                assert(shorter[i] == text[i]);
                let at = choose|at: int|
                    0 <= at < file_name_of(shorter).len() && file_name_of(shorter)[at] == text[i];
                assert(name[at] == text[i]);
            } else {
                assert(name[name.len() - 1] == text[i]);
            }
        }
    }
}

} // verus!
