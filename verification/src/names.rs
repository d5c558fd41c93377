//! Canonical forms of event names and age labels.
//!
//! Standards and meet results name the same event in different ways
//! ("200 Free", "200Free", "200 Fr"). Both sides are brought to one form
//! before anything is looked up.

use vstd::prelude::*;
use vstd::string::*;
use crate::text::{
    ends_with,
    is_space,
    lemma_leading_spaces,
    lemma_replaced_deletes,
    lemma_replaced_deletes_in_parts,
    lemma_replaced_lacks,
    lemma_trailing_spaces,
    occurs_at,
    replace,
    replaced,
    strip_suffix,
    trim,
    trimmed,
    without_suffix,
};

verus! {

/// `name` without any `m` and without any space.
pub open spec fn squeezed(name: Seq<char>) -> Seq<char> {
    replaced(replaced(name, "m"@, ""@), " "@, ""@)
}

/// `name` with the names of the strokes abbreviated, one replacement
/// after the other in this order. The longer spelling of the medley comes
/// before the shorter one that it contains.
pub open spec fn abbreviated(name: Seq<char>) -> Seq<char> {
    let name = replaced(name, "Free"@, "Fr"@);
    let name = replaced(name, "Fly"@, "Bu"@);
    let name = replaced(name, "Back"@, "Bk"@);
    let name = replaced(name, "Breast"@, "Br"@);
    let name = replaced(name, "M.E."@, "Me"@);
    let name = replaced(name, "M.E"@, "Me"@);
    let name = replaced(name, "I.M."@, "Me"@);
    let name = replaced(name, "I.M"@, "Me"@);
    replaced(name, "FL"@, "Bu"@)
}

/// The canonical form of an event name, or `None` for a blank one.
///
/// The name is trimmed; every `m` and every space is deleted; then the
/// strokes are abbreviated.
pub open spec fn normalized_event(raw: Seq<char>) -> Option<Seq<char>> {
    let name = trimmed(raw);
    if name.len() == 0 {
        None
    } else {
        Some(abbreviated(squeezed(name)))
    }
}

/// The canonical form of an age label: trimmed, and without the marker
/// `&U` ("and under") at its end.
pub open spec fn normalized_age(raw: Seq<char>) -> Seq<char> {
    without_suffix(trimmed(raw), "&U"@)
}

/// A canonical event name holds no space and no `m`.
pub proof fn lemma_canonical_event(raw: Seq<char>)
    ensures
        normalized_event(raw) matches Some(name) ==> !name.contains(' ') && !name.contains('m'),
{
    reveal_strlit("m");
    reveal_strlit(" ");
    reveal_strlit("");
    reveal_strlit("Fr");
    reveal_strlit("Bu");
    reveal_strlit("Bk");
    reveal_strlit("Br");
    reveal_strlit("Me");
    let name = trimmed(raw);
    if name.len() > 0 {
        assert("m"@ =~= seq!['m']);
        assert(" "@ =~= seq![' ']);
        assert(""@ =~= Seq::<char>::empty());
        let name = replaced(name, "m"@, ""@);
        lemma_replaced_deletes(trimmed(raw), 'm');
        let squeezed = replaced(name, " "@, ""@);
        lemma_replaced_deletes(name, ' ');
        lemma_replaced_lacks(name, " "@, ""@, 'm');
        lemma_abbreviated_lacks(squeezed, ' ');
        lemma_abbreviated_lacks(squeezed, 'm');
    }
}

/// A name of white space alone is no event.
pub proof fn lemma_blank_event(raw: Seq<char>)
    requires
        forall|i: int| 0 <= i < raw.len() ==> is_space(#[trigger] raw[i]),
    ensures
        normalized_event(raw) is None,
{
    lemma_leading_spaces(raw, raw.len() as int);
}

/// The marker `&U` at the end of an age label does not change its
/// canonical form: `13&U` and `13` are one age group.
pub proof fn lemma_under_marker(label: Seq<char>)
    requires
        label.len() > 0,
        !is_space(label.first()),
        !is_space(label.last()),
        !ends_with(label, "&U"@),
    ensures
        normalized_age(label + "&U"@) == label,
        normalized_age(label) == label,
{
    reveal_strlit("&U");
    let marked = label + "&U"@;
    assert(!is_space(marked.first()));
    assert(marked.last() == 'U');
    lemma_untrimmed(label);
    lemma_untrimmed(marked);
    assert(marked.subrange(marked.len() - 2, marked.len() as int) =~= "&U"@);
    assert(marked.take(marked.len() - 2) =~= label);
}

/// A space between two parts of a name does not change its canonical
/// form: `200 Free` and `200Free` are one event.
pub proof fn lemma_space_does_not_matter(before: Seq<char>, after: Seq<char>)
    requires
        before.len() > 0,
        after.len() > 0,
        !is_space(before.first()),
        !is_space(after.last()),
    ensures
        normalized_event(before + seq![' '] + after) == normalized_event(before + after),
{
    reveal_strlit("m");
    reveal_strlit(" ");
    reveal_strlit("");
    assert("m"@ =~= seq!['m']);
    assert(" "@ =~= seq![' ']);
    assert(""@ =~= Seq::<char>::empty());
    let space = seq![' '];
    let spaced = before + space + after;
    let joined = before + after;
    lemma_untrimmed(spaced);
    lemma_untrimmed(joined);
    lemma_replaced_deletes_in_parts(before + space, after, 'm');
    lemma_replaced_deletes_in_parts(before, space, 'm');
    lemma_replaced_deletes_in_parts(before, after, 'm');
    let b = replaced(before, "m"@, ""@);
    let a = replaced(after, "m"@, ""@);
    let nothing = Seq::<char>::empty();
    assert(space.subrange(0, 1) =~= space);
    assert(space.skip(1) =~= nothing);
    assert(replaced(nothing, "m"@, ""@) == nothing);
    assert(replaced(nothing, " "@, ""@) == nothing);
    assert(space[0] == ' ' && "m"@[0] == 'm');
    assert(!occurs_at(space, "m"@, 0));
    assert(occurs_at(space, " "@, 0));
    assert(replaced(space, "m"@, ""@) =~= space);
    lemma_replaced_deletes_in_parts(b + space, a, ' ');
    lemma_replaced_deletes_in_parts(b, space, ' ');
    lemma_replaced_deletes_in_parts(b, a, ' ');
    assert(replaced(space, " "@, ""@) =~= nothing);
    assert(replaced(b, " "@, ""@) + nothing =~= replaced(b, " "@, ""@));
}

/// A text that neither begins nor ends with white space is its own
/// trimmed form.
pub proof fn lemma_untrimmed(s: Seq<char>)
    requires
        s.len() > 0,
        !is_space(s.first()),
        !is_space(s.last()),
    ensures
        trimmed(s) == s,
{
    lemma_leading_spaces(s, 0);
    assert(s.skip(0) =~= s);
    lemma_trailing_spaces(s, s.len() as int);
    assert(s.take(s.len() as int) =~= s);
}

/// Abbreviating the strokes brings neither a space nor an `m` into a name.
proof fn lemma_abbreviated_lacks(name: Seq<char>, c: char)
    requires
        !name.contains(c),
        c == ' ' || c == 'm',
    ensures
        !abbreviated(name).contains(c),
{
    reveal_strlit("Fr");
    reveal_strlit("Bu");
    reveal_strlit("Bk");
    reveal_strlit("Br");
    reveal_strlit("Me");
    assert forall|to: Seq<char>|
        to == "Fr"@ || to == "Bu"@ || to == "Bk"@ || to == "Br"@ || to == "Me"@ implies !to.contains(
        c,
    ) by {
        assert(to.len() == 2);
        assert forall|i: int| 0 <= i < to.len() implies to[i] != c by {
            assert(i == 0 || i == 1);
        }
    }
    let n1 = replaced(name, "Free"@, "Fr"@);
    lemma_replaced_lacks(name, "Free"@, "Fr"@, c);
    let n2 = replaced(n1, "Fly"@, "Bu"@);
    lemma_replaced_lacks(n1, "Fly"@, "Bu"@, c);
    let n3 = replaced(n2, "Back"@, "Bk"@);
    lemma_replaced_lacks(n2, "Back"@, "Bk"@, c);
    let n4 = replaced(n3, "Breast"@, "Br"@);
    lemma_replaced_lacks(n3, "Breast"@, "Br"@, c);
    let n5 = replaced(n4, "M.E."@, "Me"@);
    lemma_replaced_lacks(n4, "M.E."@, "Me"@, c);
    let n6 = replaced(n5, "M.E"@, "Me"@);
    lemma_replaced_lacks(n5, "M.E"@, "Me"@, c);
    let n7 = replaced(n6, "I.M."@, "Me"@);
    lemma_replaced_lacks(n6, "I.M."@, "Me"@, c);
    let n8 = replaced(n7, "I.M"@, "Me"@);
    lemma_replaced_lacks(n7, "I.M"@, "Me"@, c);
    lemma_replaced_lacks(n8, "FL"@, "Bu"@, c);
}

/// Brings an event name to its canonical form. A blank name has none.
pub fn normalize_event_name(event: &str) -> (r: Option<String>)
    ensures
        match r {
            Some(name) => normalized_event(event@) == Some(name@),
            None => normalized_event(event@) is None,
        },
{
    let name = trim(event);
    if name.unicode_len() == 0 {
        return None;
    }
    let name = replace(name, "m", "");
    let name = replace(name.as_str(), " ", "");
    let name = replace(name.as_str(), "Free", "Fr");
    let name = replace(name.as_str(), "Fly", "Bu");
    let name = replace(name.as_str(), "Back", "Bk");
    let name = replace(name.as_str(), "Breast", "Br");
    let name = replace(name.as_str(), "M.E.", "Me");
    let name = replace(name.as_str(), "M.E", "Me");
    let name = replace(name.as_str(), "I.M.", "Me");
    let name = replace(name.as_str(), "I.M", "Me");
    let name = replace(name.as_str(), "FL", "Bu");
    Some(name)
}

/// Brings an age label to its canonical form.
pub fn normalize_age(age: &str) -> (r: String)
    ensures
        r@ == normalized_age(age@),
{
    String::from_str(strip_suffix(trim(age), "&U"))
}

} // verus!
