//! The languages that a model knows.
use vstd::prelude::*;

verus! {

/// The identifier of no language in particular.
pub const ANY_LANGUAGE: i64 = 0;

/// A table of language codes and their identifiers, as a map from code to
/// identifier.
#[derive(Debug)]
pub struct Languages {
    entries: Vec<(String, i64)>,
}

/// The map that entries stand for: later entries replace earlier ones.
pub open spec fn table_of(entries: Seq<(String, i64)>) -> Map<Seq<char>, i64>
    decreases entries.len(),
{
    if entries.len() == 0 {
        Map::empty()
    } else {
        table_of(entries.drop_last()).insert(entries.last().0@, entries.last().1)
    }
}

impl View for Languages {
    type V = Map<Seq<char>, i64>;

    closed spec fn view(&self) -> Map<Seq<char>, i64> {
        table_of(self.entries@)
    }
}

impl Languages {
    /// An empty table.
    pub fn new() -> (languages: Languages)
        ensures
            languages@ == Map::<Seq<char>, i64>::empty(),
    {
        Languages { entries: Vec::new() }
    }

    /// Gives a code an identifier, in place of the one it may have had.
    pub fn insert(&mut self, code: String, identifier: i64)
        ensures
            final(self)@ == old(self)@.insert(code@, identifier),
    {
        let ghost before = self.entries@;
        self.entries.push((code, identifier));
        proof {
            assert(self.entries@.drop_last() =~= before);
        }
    }

    /// The identifier of a code, if the table has it.
    pub fn get(&self, code: &String) -> (identifier: Option<i64>)
        ensures
            identifier == if self@.contains_key(code@) {
                Some(self@[code@])
            } else {
                None
            },
    {
        let mut left: usize = self.entries.len();
        proof {
            assert(self.entries@.take(left as int) =~= self.entries@);
        }
        while left > 0
            invariant
                left <= self.entries@.len(),
                self@.contains_key(code@) == table_of(
                    self.entries@.take(left as int),
                ).contains_key(code@),
                self@.contains_key(code@) ==> self@[code@] == table_of(
                    self.entries@.take(left as int),
                )[code@],
            decreases left,
        {
            proof {
                assert(self.entries@.take(left as int).drop_last() =~= self.entries@.take(
                    left - 1,
                ));
            }
            left = left - 1;
            if self.entries[left].0 == *code {
                return Some(self.entries[left].1);
            }
        }
        None
    }
}

/// The identifier of the language that was asked for: that of its code, or of no
/// language in particular where none was asked for, the model knows no
/// languages, or the code is not among them.
pub open spec fn resolved(
    language: Option<Seq<char>>,
    languages: Option<Map<Seq<char>, i64>>,
) -> i64 {
    match (language, languages) {
        (Some(code), Some(table)) => if table.contains_key(code) {
            table[code]
        } else {
            ANY_LANGUAGE
        },
        _ => ANY_LANGUAGE,
    }
}

/// A text that may be missing, as characters.
pub open spec fn text_of(text: Option<String>) -> Option<Seq<char>> {
    match text {
        Some(text) => Some(text@),
        None => None,
    }
}

/// A table that may be missing, as a map.
pub open spec fn map_of(languages: Option<Languages>) -> Option<Map<Seq<char>, i64>> {
    match languages {
        Some(languages) => Some(languages@),
        None => None,
    }
}

/// Resolves the language that was asked for.
pub fn resolve_language(language: &Option<String>, languages: &Option<Languages>) -> (identifier:
    i64)
    ensures
        identifier == resolved(text_of(*language), map_of(*languages)),
        match language {
            Some(code) => match languages {
                Some(table) => if table@.contains_key(code@) {
                    identifier == table@[code@]
                } else {
                    identifier == 0
                },
                None => identifier == 0,
            },
            None => identifier == 0,
        },
{
    match language {
        Some(code) => match languages {
            Some(table) => match table.get(code) {
                Some(identifier) => identifier,
                None => ANY_LANGUAGE,
            },
            None => ANY_LANGUAGE,
        },
        None => ANY_LANGUAGE,
    }
}

/// A code that the table has resolves to its identifier, whatever that is: what
/// was inserted for a code last is what the code resolves to.
pub proof fn lemma_inserted_code_resolves_to_its_identifier(
    table: Map<Seq<char>, i64>,
    code: Seq<char>,
    identifier: i64,
)
    ensures
        resolved(Some(code), Some(table.insert(code, identifier))) == identifier,
        table.contains_key(code) ==> resolved(Some(code), Some(table)) == table[code],
{
}

/// A code that the table lacks resolves to no language in particular, and so does
/// a missing code or table.
pub proof fn lemma_unknown_code_resolves_to_none(
    language: Option<Seq<char>>,
    languages: Option<Map<Seq<char>, i64>>,
    code: Seq<char>,
    table: Map<Seq<char>, i64>,
)
    ensures
        !table.contains_key(code) ==> resolved(Some(code), Some(table)) == 0,
        resolved(None, languages) == 0,
        resolved(language, None) == 0,
{
}

/// Inserting one code changes nothing in what the others resolve to.
pub proof fn lemma_other_codes_resolve_as_before(
    table: Map<Seq<char>, i64>,
    code: Seq<char>,
    identifier: i64,
    other: Seq<char>,
)
    requires
        other != code,
    ensures
        resolved(Some(other), Some(table.insert(code, identifier))) == resolved(
            Some(other),
            Some(table),
        ),
{
}

/// Resolving a text in a table reads that text and that table.
pub proof fn lemma_text_and_table_are_read_as_they_are(text: String, table: Languages)
    ensures
        text_of(Some(text)) == Some(text@),
        text_of(None) == None::<Seq<char>>,
        map_of(Some(table)) == Some(table@),
        map_of(None) == None::<Map<Seq<char>, i64>>,
{
}

} // verus!
