//! Identifiers made of arbitrary names.
//!
//! An identifier is a letter or underscore followed by letters, digits and
//! underscores. Names from a program, such as printed types, are turned into
//! identifiers by pliron's `Legaliser`.

use crate::text;
use pliron::identifier::Legaliser;
use vstd::prelude::*;

verus! {

/// The table from names to identifiers that pliron keeps.
#[verifier::external_type_specification]
#[verifier::external_body]
pub struct ExLegaliser(pliron::identifier::Legaliser);

/// The identifiers that a table has given to names.
pub uninterp spec fn given_names(legaliser: Legaliser) -> Map<Seq<char>, Seq<char>>;

/// How many numbers a table has put behind identifiers, or tried to.
pub uninterp spec fn given_numbers(legaliser: Legaliser) -> nat;

/// Whether Unicode has a character for a letter.
pub uninterp spec fn is_letter(c: char) -> bool;

/// What a table holds that has given no identifier.
pub open spec fn no_names() -> Map<Seq<char>, Seq<char>> {
    Map::empty()
}

/// Whether a character may begin an identifier.
pub open spec fn is_initial(c: char) -> bool {
    'a' <= c <= 'z' || 'A' <= c <= 'Z' || c == '_'
}

/// Whether a name is an identifier.
pub open spec fn is_identifier(name: Seq<char>) -> bool {
    &&& name.len() > 0
    &&& is_initial(name[0])
    &&& forall|i: int| 0 < i < name.len() ==> is_initial(#[trigger] name[i]) || '0' <= name[i] <= '9'
}

/// Whether a name is empty or begins with an ASCII character.
pub open spec fn begins_plainly(name: Seq<char>) -> bool {
    name.len() > 0 ==> (name[0] as u32) < 128
}

/// A name with an underscore for each character that an identifier cannot have
/// at its place, and an underscore for no name at all. A first character
/// outside ASCII stays where it is a letter.
pub open spec fn spelled(name: Seq<char>, letter: bool) -> Seq<char> {
    if name.len() == 0 {
        seq!['_']
    } else {
        Seq::new(
            name.len(),
            |i: int|
                if is_initial(name[i]) || 0 < i && '0' <= name[i] <= '9' || i == 0 && letter
                    && !begins_plainly(name) {
                    name[i]
                } else {
                    '_'
                },
        )
    }
}

/// The identifier that an empty table gives to a name.
pub open spec fn legal_name(name: Seq<char>) -> Seq<char> {
    spelled(name, is_letter(name[0]))
}

/// An identifier with a number behind it.
pub open spec fn numbered(id: Seq<char>, k: nat) -> Seq<char> {
    id + "_"@ + text::decimal_of(k)
}

/// Whether a table gives a name an identifier as it should: its own, or one
/// with a number where another name has that, and always the same.
pub open spec fn gives(
    new: Map<Seq<char>, Seq<char>>,
    old: Map<Seq<char>, Seq<char>>,
    name: Seq<char>,
    id: Seq<char>,
) -> bool {
    &&& new == old.insert(name, id)
    &&& if old.contains_key(name) {
        id == old[name]
    } else if old.contains_value(legal_name(name)) {
        !old.contains_value(id) && exists|k: nat| id == #[trigger] numbered(legal_name(name), k)
    } else {
        id == legal_name(name)
    }
}

/// Whether the number behind an identifier is the next one that makes it new:
/// none is needed where the identifier of the name is free or the name has one.
pub open spec fn numbers(
    new: nat,
    old: nat,
    given: Map<Seq<char>, Seq<char>>,
    name: Seq<char>,
    id: Seq<char>,
) -> bool {
    if given.contains_key(name) || !given.contains_value(legal_name(name)) {
        new == old
    } else {
        &&& new > old
        &&& id == numbered(legal_name(name), (new - 1) as nat)
        &&& forall|k: nat|
            old <= k < new - 1 ==> given.contains_value(#[trigger] numbered(legal_name(name), k))
    }
}

/// `Legaliser::default` of pliron: a table that has given no identifier yet.
#[verifier::external_body]
fn new_legaliser() -> (r: Legaliser)
    ensures
        given_names(r) == no_names(),
        given_numbers(r) == 0,
{
    Legaliser::default()
}

/// `Legaliser::legalise` of pliron: the identifier of a name. A name that was
/// seen before keeps its identifier. A new name is spelled with underscores
/// for what an identifier cannot have; where another name has that identifier
/// already, an underscore and a number come behind it: the next number with
/// which no other name has the identifier.
#[verifier::external_body]
fn legalise(legaliser: &mut Legaliser, name: &str) -> (r: String)
    ensures
        given_names(*final(legaliser)) == given_names(*old(legaliser)).insert(name@, r@),
        given_names(*old(legaliser)).contains_key(name@) ==> r@ == given_names(
            *old(legaliser),
        )[name@],
        !given_names(*old(legaliser)).contains_key(name@) ==> !given_names(
            *old(legaliser),
        ).contains_value(r@),
        !given_names(*old(legaliser)).contains_key(name@) && !given_names(
            *old(legaliser),
        ).contains_value(spelled(name@, is_letter(name@[0]))) ==> r@ == spelled(
            name@,
            is_letter(name@[0]),
        ),
        numbers(
            given_numbers(*final(legaliser)),
            given_numbers(*old(legaliser)),
            given_names(*old(legaliser)),
            name@,
            r@,
        ),
{
    legaliser.legalise(name).to_string()
}

/// The identifier of a name.
pub fn legal_identifier(name: &str) -> (r: String)
    ensures
        r@ == legal_name(name@),
        r@.len() == if name@.len() == 0 {
            1
        } else {
            name@.len()
        },
{
    let mut legaliser: Legaliser = new_legaliser();
    legalise(&mut legaliser, name)
}

/// The identifiers of names that must not be confused: the same name gets the
/// same identifier, different names get different ones.
pub struct Names {
    legaliser: Legaliser,
}

impl Names {
    /// The identifiers given so far.
    pub closed spec fn view(&self) -> Map<Seq<char>, Seq<char>> {
        given_names(self.legaliser)
    }

    /// How many numbers were put behind identifiers so far, or tried.
    pub closed spec fn numbers(&self) -> nat {
        given_numbers(self.legaliser)
    }

    /// No identifiers yet.
    pub fn new() -> (r: Names)
        ensures
            r@ == no_names(),
            r.numbers() == 0,
    {
        Names { legaliser: new_legaliser() }
    }

    /// The identifier of a name.
    pub fn legal_identifier(&mut self, name: &str) -> (r: String)
        ensures
            gives(final(self)@, old(self)@, name@, r@),
            numbers(final(self).numbers(), old(self).numbers(), old(self)@, name@, r@),
    {
        legalise(&mut self.legaliser, name)
    }
}

/// A name that is an identifier is spelled as it is.
pub proof fn law_identifiers_stay(name: Seq<char>)
    requires
        is_identifier(name),
    ensures
        legal_name(name) == name,
{
    assert(legal_name(name) =~= name);
}

/// What a name is spelled as is an identifier, with or without a number behind
/// it, where the name does not begin with a letter outside ASCII.
pub proof fn law_spelled_as_identifier(name: Seq<char>, k: nat)
    requires
        begins_plainly(name) || !is_letter(name[0]),
    ensures
        is_identifier(legal_name(name)),
        is_identifier(numbered(legal_name(name), k)),
{
    let id = legal_name(name);
    lemma_digits(k);
    reveal_strlit("_");
    assert("_"@ =~= seq!['_']);
    assert(numbered(id, k) =~= id + seq!['_'] + text::decimal_of(k));
    assert forall|i: int| 0 < i < numbered(id, k).len() implies is_initial(
        #[trigger] numbered(id, k)[i],
    ) || '0' <= numbered(id, k)[i] <= '9' by {
        if i < id.len() {
            assert(numbered(id, k)[i] == id[i]);
        } else if i > id.len() {
            assert(numbered(id, k)[i] == text::decimal_of(k)[i - id.len() - 1]);
        }
    }
}

/// A number in decimal is made of digits.
proof fn lemma_digits(value: nat)
    ensures
        forall|i: int|
            0 <= i < text::decimal_of(value).len() ==> '0' <= #[trigger] text::decimal_of(value)[i]
                <= '9',
    decreases value,
{
    if value >= 10 {
        let most = text::decimal_of(value / 10);
        lemma_digits(value / 10);
        assert forall|i: int| 0 <= i < text::decimal_of(value).len() implies '0'
            <= #[trigger] text::decimal_of(value)[i] <= '9' by {
            if i < most.len() {
                assert(text::decimal_of(value)[i] == most[i]);
            }
        }
    }
}

/// Whether no two names have the same identifier.
pub open spec fn keeps_apart(given: Map<Seq<char>, Seq<char>>) -> bool {
    forall|a: Seq<char>, b: Seq<char>|
        given.contains_key(a) && given.contains_key(b) && a != b ==> #[trigger] given[a]
            != #[trigger] given[b]
}

/// Different names never get the same identifier: nothing does at first, and
/// giving a name an identifier keeps it so.
pub proof fn law_names_stay_apart(
    new: Map<Seq<char>, Seq<char>>,
    old: Map<Seq<char>, Seq<char>>,
    name: Seq<char>,
    id: Seq<char>,
)
    requires
        keeps_apart(old),
        gives(new, old, name, id),
    ensures
        keeps_apart(no_names()),
        keeps_apart(new),
{
    assert forall|a: Seq<char>, b: Seq<char>|
        new.contains_key(a) && new.contains_key(b) && a != b implies #[trigger] new[a]
        != #[trigger] new[b] by {
        if !old.contains_key(name) {
            if a == name {
                assert(old.contains_key(b) && old[b] == new[b]);
            } else if b == name {
                assert(old.contains_key(a) && old[a] == new[a]);
            }
        }
    }
}

} // verus!
