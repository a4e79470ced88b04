//! Laws of trimming, splitting and comparing text, and of sets of names.
use crate::names::{contains_name, distinct_names, name_set};
use crate::text::{
    eq_ignore_ascii_case, fields, is_white_space, lemma_filter_push, non_empty, split, split_fields,
    split_non_empty_fields, split_text, str_eq, str_le, strings, text_le, texts, to_strings, trim,
    trim_end, trim_start, trimmed,
};
use vstd::prelude::*;

verus! {

/// Whether white space is all that stands in a text.
pub open spec fn all_white(s: Seq<char>) -> bool {
    forall|i: int| 0 <= i < s.len() ==> is_white_space(#[trigger] s[i])
}

/// Whether a text neither begins nor ends with white space.
pub open spec fn has_bare_ends(s: Seq<char>) -> bool {
    s.len() > 0 ==> !is_white_space(s[0]) && !is_white_space(s[s.len() - 1])
}

/// Pieces put together, with a separator between each two.
pub open spec fn joined(pieces: Seq<Seq<char>>, sep: char) -> Seq<char>
    decreases pieces.len(),
{
    if pieces.len() == 0 {
        Seq::empty()
    } else if pieces.len() == 1 {
        pieces[0]
    } else {
        joined(pieces.drop_last(), sep).push(sep) + pieces.last()
    }
}

/// Whether a separator stands in none of the pieces.
pub open spec fn free_of(pieces: Seq<Seq<char>>, sep: char) -> bool {
    forall|i: int, j: int|
        0 <= i < pieces.len() && 0 <= j < pieces[i].len() ==> #[trigger] pieces[i][j] != sep
}

/// Whether one of `names` is `name`.
pub open spec fn has_name(names: Seq<String>, name: Seq<char>) -> bool {
    exists|i: int| 0 <= i < names.len() && (#[trigger] names[i])@ == name
}

/// A text is its trimmed part with white space around it, and the trimmed part
/// has none at its ends.
pub proof fn trimmed_part(s: Seq<char>) -> (around: (Seq<char>, Seq<char>))
    ensures
        s == around.0 + trimmed(s) + around.1,
        all_white(around.0),
        all_white(around.1),
        has_bare_ends(trimmed(s)),
{
    let before = lemma_trim_start_parts(s);
    let after = lemma_trim_end_parts(trim_start(s));
    assert(s =~= before + trimmed(s) + after);
    if trimmed(s).len() > 0 {
        assert(trimmed(s)[0] == trim_start(s)[0]);
    }
    (before, after)
}

proof fn lemma_trim_start_parts(s: Seq<char>) -> (before: Seq<char>)
    ensures
        s == before + trim_start(s),
        all_white(before),
        trim_start(s).len() > 0 ==> !is_white_space(trim_start(s)[0]),
    decreases s.len(),
{
    if s.len() > 0 && is_white_space(s[0]) {
        let rest = lemma_trim_start_parts(s.drop_first());
        let before = seq![s[0]] + rest;
        assert(s =~= seq![s[0]] + s.drop_first());
        assert(s =~= before + trim_start(s));
        before
    } else {
        assert(s =~= Seq::<char>::empty() + s);
        Seq::empty()
    }
}

proof fn lemma_trim_end_parts(s: Seq<char>) -> (after: Seq<char>)
    ensures
        s == trim_end(s) + after,
        all_white(after),
        trim_end(s).len() > 0 ==> !is_white_space(trim_end(s)[trim_end(s).len() - 1]),
    decreases s.len(),
{
    if s.len() > 0 && is_white_space(s.last()) {
        let rest = lemma_trim_end_parts(s.drop_last());
        let after = rest.push(s.last());
        assert(s =~= s.drop_last().push(s.last()));
        assert(s =~= trim_end(s) + after);
        after
    } else {
        assert(s =~= s + Seq::<char>::empty());
        Seq::empty()
    }
}

/// There is one way to take the white space off a text.
pub proof fn trimming_is_unique(
    before: Seq<char>,
    core: Seq<char>,
    after: Seq<char>,
)
    requires
        all_white(before),
        all_white(after),
        has_bare_ends(core),
    ensures
        trimmed(before + core + after) == core,
{
    let s = before + core + after;
    let (b, a) = trimmed_part(s);
    let t = trimmed(s);
    if core.len() == 0 {
        if t.len() > 0 {
            assert(s[b.len() as int] == t[0]);
            assert(is_white_space(s[b.len() as int])) by {
                if b.len() < before.len() {
                    assert(s[b.len() as int] == before[b.len() as int]);
                } else {
                    assert(s[b.len() as int] == after[b.len() - before.len()]);
                }
            }
        }
        assert(t =~= core);
    } else {
        let first = before.len() as int;
        let last = before.len() + core.len() - 1;
        assert(s[first] == core[0]);
        assert(s[last] == core[core.len() - 1]);
        if b.len() > first {
            assert(s[first] == b[first]);
        }
        if t.len() > 0 && b.len() < first {
            assert(s[b.len() as int] == t[0]);
            assert(s[b.len() as int] == before[b.len() as int]);
        }
        if t.len() == 0 {
            assert(first >= b.len());
            assert(s[first] == a[first - b.len()]);
        }
        let end = b.len() + t.len();
        if end <= last {
            assert(s[last] == a[last - end]);
        }
        if end > last + 1 {
            assert(s[end - 1] == t[t.len() - 1]);
            assert(s[end - 1] == after[end - 1 - (last + 1)]);
        }
        assert(b.len() == first && end == last + 1);
        assert forall|i: int| 0 <= i < t.len() implies t[i] == core[i] by {
            assert(s[first + i] == t[i]);
            assert(s[first + i] == core[i]);
        }
        assert(t =~= core);
    }
}

/// What `trim` leaves is the text without the white space around it, whatever
/// that is.
pub proof fn trim_takes_white_space_off(
    s: &str,
    r: &str,
    before: Seq<char>,
    core: Seq<char>,
    after: Seq<char>,
)
    requires
        call_ensures(trim, (s,), r),
        s@ == before + core + after,
        all_white(before),
        all_white(after),
        has_bare_ends(core),
    ensures
        r@ == core,
{
    trimming_is_unique(before, core, after);
}

/// A text of white space trims to nothing, and only such a text does.
pub proof fn blank_texts(s: Seq<char>)
    ensures
        trimmed(s).len() == 0 <==> all_white(s),
{
    let (b, a) = trimmed_part(s);
    if all_white(s) {
        assert(s =~= s + Seq::<char>::empty() + Seq::<char>::empty());
        trimming_is_unique(s, Seq::empty(), Seq::empty());
    }
    if trimmed(s).len() == 0 {
        assert forall|i: int| 0 <= i < s.len() implies is_white_space(#[trigger] s[i]) by {
            if i < b.len() {
                assert(s[i] == b[i]);
            } else {
                assert(s[i] == a[i - b.len()]);
            }
        }
    }
}

proof fn lemma_split_free(b: Seq<char>, sep: char)
    requires
        forall|j: int| 0 <= j < b.len() ==> #[trigger] b[j] != sep,
    ensures
        split_text(b, sep) == seq![b],
    decreases b.len(),
{
    if b.len() > 0 {
        let front = b.drop_last();
        assert forall|j: int| 0 <= j < front.len() implies #[trigger] front[j] != sep by {
            assert(b[j] != sep);
        }
        lemma_split_free(front, sep);
        assert(b.last() == b[b.len() - 1]);
        assert(front.push(b.last()) =~= b);
        assert(split_text(b, sep) =~= seq![b]);
    } else {
        assert(split_text(b, sep) =~= seq![b]);
    }
}

proof fn lemma_split_at_last(a: Seq<char>, b: Seq<char>, sep: char)
    requires
        forall|j: int| 0 <= j < b.len() ==> #[trigger] b[j] != sep,
    ensures
        split_text(a.push(sep) + b, sep) == split_text(a, sep).push(b),
    decreases b.len(),
{
    let s = a.push(sep) + b;
    if b.len() == 0 {
        assert(s.drop_last() =~= a);
        assert(b =~= Seq::<char>::empty());
    } else {
        let front = b.drop_last();
        assert forall|j: int| 0 <= j < front.len() implies #[trigger] front[j] != sep by {
            assert(b[j] != sep);
        }
        lemma_split_at_last(a, front, sep);
        assert(s.drop_last() =~= a.push(sep) + front);
        assert(b[b.len() - 1] != sep);
        let before = split_text(a, sep).push(front);
        assert(before.drop_last() =~= split_text(a, sep));
        assert(front.push(b.last()) =~= b);
    }
}

/// Splitting undoes joining.
pub proof fn split_of_joined(pieces: Seq<Seq<char>>, sep: char)
    requires
        pieces.len() > 0,
        free_of(pieces, sep),
    ensures
        split_text(joined(pieces, sep), sep) == pieces,
    decreases pieces.len(),
{
    let last = pieces.last();
    assert forall|j: int| 0 <= j < last.len() implies #[trigger] last[j] != sep by {
        assert(pieces[pieces.len() - 1][j] != sep);
    }
    if pieces.len() == 1 {
        lemma_split_free(last, sep);
        assert(pieces =~= seq![last]);
    } else {
        let front = pieces.drop_last();
        assert forall|i: int, j: int|
            0 <= i < front.len() && 0 <= j < front[i].len() implies #[trigger] front[i][j]
            != sep by {
            assert(pieces[i][j] != sep);
        }
        split_of_joined(front, sep);
        lemma_split_at_last(joined(front, sep), last, sep);
        assert(front.push(last) =~= pieces);
    }
}

/// Joining undoes splitting, and no piece holds the separator.
pub proof fn joined_of_split(s: Seq<char>, sep: char)
    ensures
        split_text(s, sep).len() > 0,
        free_of(split_text(s, sep), sep),
        joined(split_text(s, sep), sep) == s,
    decreases s.len(),
{
    let pieces = split_text(s, sep);
    if s.len() == 0 {
        assert(pieces =~= seq![s]);
    } else {
        let rest = s.drop_last();
        joined_of_split(rest, sep);
        let front = split_text(rest, sep);
        if s.last() == sep {
            assert(pieces.drop_last() =~= front);
            assert(joined(pieces, sep) =~= s);
            assert forall|i: int, j: int|
                0 <= i < pieces.len() && 0 <= j < pieces[i].len() implies #[trigger] pieces[i][j]
                != sep by {
                assert(front[i][j] != sep);
            }
        } else {
            let last = front.last().push(s.last());
            assert(pieces.drop_last() =~= front.drop_last());
            assert(pieces.last() == last);
            assert(joined(pieces, sep) =~= joined(front, sep).push(s.last()));
            assert(s =~= rest.push(s.last()));
            assert forall|i: int, j: int|
                0 <= i < pieces.len() && 0 <= j < pieces[i].len() implies #[trigger] pieces[i][j]
                != sep by {
                if i < front.len() - 1 {
                    assert(front[i][j] != sep);
                } else if j < front.last().len() {
                    assert(front[i][j] != sep);
                }
            }
        }
    }
}

/// `split` gives back the pieces that a text was put together from.
pub proof fn split_gives_the_pieces(
    s: &str,
    sep: char,
    r: Vec<&str>,
    pieces: Seq<Seq<char>>,
)
    requires
        call_ensures(split, (s, sep), r),
        pieces.len() > 0,
        free_of(pieces, sep),
        s@ == joined(pieces, sep),
    ensures
        r@.len() == pieces.len(),
        forall|i: int| 0 <= i < pieces.len() ==> (#[trigger] r@[i])@ == pieces[i],
{
    split_of_joined(pieces, sep);
    contents_of_slices(r@);
}

/// The fields of a list are its pieces between commas, each without the white
/// space around it.
pub proof fn fields_are_trimmed_pieces(s: Seq<char>, pieces: Seq<Seq<char>>)
    requires
        pieces.len() > 0,
        free_of(pieces, ','),
        s == joined(pieces, ','),
    ensures
        fields(s).len() == pieces.len(),
        forall|i: int| 0 <= i < pieces.len() ==> #[trigger] fields(s)[i] == trimmed(pieces[i]),
{
    split_of_joined(pieces, ',');
}

/// `split_fields` gives every field of a list, in order, and
/// `split_non_empty_fields` those that are not empty.
pub proof fn split_fields_give_the_fields(
    s: &str,
    all: Vec<&str>,
    kept: Vec<&str>,
    pieces: Seq<Seq<char>>,
)
    requires
        call_ensures(split_fields, (s,), all),
        call_ensures(split_non_empty_fields, (s,), kept),
        pieces.len() > 0,
        free_of(pieces, ','),
        s@ == joined(pieces, ','),
    ensures
        all@.len() == pieces.len(),
        forall|i: int| 0 <= i < pieces.len() ==> (#[trigger] all@[i])@ == trimmed(pieces[i]),
        texts(kept@) == texts(all@).filter(|name: Seq<char>| name.len() > 0),
{
    fields_are_trimmed_pieces(s@, pieces);
    contents_of_slices(all@);
}

/// Leaving empty names out goes name by name, and keeps their order.
pub proof fn non_empty_goes_by_name(a: Seq<Seq<char>>, b: Seq<Seq<char>>, name: Seq<char>)
    ensures
        non_empty(a + b) == non_empty(a) + non_empty(b),
        name.len() > 0 ==> non_empty(seq![name]) == seq![name],
        name.len() == 0 ==> non_empty(seq![name]) == Seq::<Seq<char>>::empty(),
    decreases b.len(),
{
    reveal(Seq::filter);
    let pred = |n: Seq<char>| n.len() > 0;
    assert(seq![name] =~= Seq::<Seq<char>>::empty().push(name));
    lemma_filter_push(Seq::empty(), name, pred);
    assert(seq![name].filter(pred) =~= if name.len() > 0 {
        seq![name]
    } else {
        Seq::empty()
    });
    if b.len() == 0 {
        assert(a + b =~= a);
        assert(non_empty(a) + non_empty(b) =~= non_empty(a));
    } else {
        non_empty_goes_by_name(a, b.drop_last(), name);
        assert((a + b).drop_last() =~= a + b.drop_last());
        assert(non_empty(a + b) =~= non_empty(a) + non_empty(b));
    }
}

/// The contents of string slices are their characters, one by one.
pub proof fn contents_of_slices(s: Seq<&str>)
    ensures
        texts(s).len() == s.len(),
        forall|i: int| 0 <= i < s.len() ==> #[trigger] texts(s)[i] == s[i]@,
        forall|i: int| 0 <= i < s.len() ==> texts(s)[i] == (#[trigger] s[i])@,
{
}

/// The contents of strings are their characters, one by one.
pub proof fn contents_of_strings(s: Seq<String>)
    ensures
        strings(s).len() == s.len(),
        forall|i: int| 0 <= i < s.len() ==> #[trigger] strings(s)[i] == s[i]@,
        forall|i: int| 0 <= i < s.len() ==> strings(s)[i] == (#[trigger] s[i])@,
{
}

/// Copying slices into strings keeps their characters.
pub proof fn copies_are_faithful(slices: Vec<&str>, names: Vec<String>)
    requires
        call_ensures(to_strings, (slices,), names),
    ensures
        names@.len() == slices@.len(),
        forall|i: int| 0 <= i < names@.len() ==> (#[trigger] names@[i])@ == slices@[i]@,
{
    contents_of_slices(slices@);
    contents_of_strings(names@);
}

/// A name is in the set of names exactly if one of them is that name.
pub proof fn names_in_a_set(names: Seq<String>, name: Seq<char>)
    ensures
        name_set(names).contains(name) <==> has_name(names, name),
        strings(names).contains(name) <==> has_name(names, name),
{
    contents_of_strings(names);
    if strings(names).contains(name) {
        let i = choose|i: int| 0 <= i < strings(names).len() && strings(names)[i] == name;
        assert(names[i]@ == name);
    }
    if has_name(names, name) {
        let i = choose|i: int| 0 <= i < names.len() && (#[trigger] names[i])@ == name;
        assert(strings(names)[i] == name);
    }
}

/// `contains_name` finds a name exactly if it is there; `distinct_names` keeps
/// every name, and each once.
pub proof fn name_lists(
    names: &[String],
    name: &str,
    found: bool,
    distinct: Vec<String>,
)
    requires
        call_ensures(contains_name, (names, name), found),
        call_ensures(distinct_names, (names,), distinct),
    ensures
        found <==> has_name(names@, name@),
        has_name(distinct@, name@) <==> has_name(names@, name@),
        forall|i: int, j: int|
            0 <= i < j < distinct@.len() ==> (#[trigger] distinct@[i])@ != (
            #[trigger] distinct@[j])@,
{
    names_in_a_set(names@, name@);
    names_in_a_set(distinct@, name@);
    contents_of_strings(distinct@);
    assert forall|i: int, j: int| 0 <= i < j < distinct@.len() implies (#[trigger] distinct@[i])@
        != (#[trigger] distinct@[j])@ by {
        assert(strings(distinct@)[i] != strings(distinct@)[j]);
    }
}

/// `str_eq` tells whether two texts have the same characters.
pub proof fn equal_texts(a: &str, b: &str, r: bool)
    requires
        call_ensures(str_eq, (a, b), r),
    ensures
        r <==> a@.len() == b@.len() && forall|i: int|
            0 <= i < a@.len() ==> #[trigger] a@[i] == b@[i],
{
    if a@.len() == b@.len() && forall|i: int| 0 <= i < a@.len() ==> #[trigger] a@[i] == b@[i] {
        assert(a@ =~= b@);
    }
}

/// The order of texts is decided at the first character in which they differ.
pub proof fn first_difference_decides(
    a: &str,
    b: &str,
    r: bool,
    common: Seq<char>,
    x: char,
    y: char,
    rest_a: Seq<char>,
    rest_b: Seq<char>,
)
    requires
        call_ensures(str_le, (a, b), r),
        a@ == common.push(x) + rest_a,
        b@ == common.push(y) + rest_b,
        x != y,
    ensures
        r <==> x < y,
        r == text_le(a@, b@),
{
    lemma_text_le_after_common(common, a@.skip(common.len() as int), b@.skip(common.len() as int));
    assert(a@ =~= common + a@.skip(common.len() as int));
    assert(b@ =~= common + b@.skip(common.len() as int));
    assert(a@.skip(common.len() as int)[0] == x);
    assert(b@.skip(common.len() as int)[0] == y);
}

/// Where one text begins with the other, the shorter one comes first.
pub proof fn prefixes_come_first(a: &str, b: &str, r: bool, rest: Seq<char>)
    requires
        call_ensures(str_le, (a, b), r),
    ensures
        b@ == a@ + rest ==> r && text_le(a@, b@),
        a@ == b@ + rest && rest.len() > 0 ==> !r && !text_le(a@, b@),
{
    lemma_text_le_after_common(a@, Seq::empty(), rest);
    lemma_text_le_after_common(b@, rest, Seq::empty());
    assert(a@ + Seq::<char>::empty() =~= a@);
    assert(b@ + Seq::<char>::empty() =~= b@);
}

proof fn lemma_text_le_after_common(common: Seq<char>, a: Seq<char>, b: Seq<char>)
    ensures
        text_le(common + a, common + b) == text_le(a, b),
    decreases common.len(),
{
    if common.len() == 0 {
        assert(common + a =~= a);
        assert(common + b =~= b);
    } else {
        lemma_text_le_after_common(common.drop_first(), a, b);
        assert((common + a).drop_first() =~= common.drop_first() + a);
        assert((common + b).drop_first() =~= common.drop_first() + b);
    }
}

/// Two texts agree but for case exactly if they are equally long and, at every
/// place, hold the same character or a small and a capital form of one of the
/// letters from A to Z.
pub proof fn case_is_ignored_for_ascii_letters(a: &str, b: &str, r: bool)
    requires
        call_ensures(eq_ignore_ascii_case, (a, b), r),
    ensures
        r <==> a@.len() == b@.len() && forall|i: int|
            0 <= i < a@.len() ==> same_letter(#[trigger] a@[i], b@[i]),
{
    if r {
        assert forall|i: int| 0 <= i < a@.len() implies same_letter(#[trigger] a@[i], b@[i]) by {
            assert(crate::text::ascii_lower(a@[i]) == crate::text::ascii_lower(b@[i]));
        }
    }
    if a@.len() == b@.len() && forall|i: int|
        0 <= i < a@.len() ==> same_letter(#[trigger] a@[i], b@[i]) {
        assert forall|i: int| 0 <= i < a@.len() implies crate::text::ascii_lower(#[trigger] a@[i])
            == crate::text::ascii_lower(b@[i]) by {
            assert(same_letter(a@[i], b@[i]));
        }
    }
}

/// Whether two characters are the same, or a capital letter from A to Z and its
/// small form.
pub open spec fn same_letter(x: char, y: char) -> bool {
    ||| x == y
    ||| 'A' <= x <= 'Z' && y as int == x as int + 32
    ||| 'A' <= y <= 'Z' && x as int == y as int + 32
}

} // verus!
