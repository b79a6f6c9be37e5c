//! Link entities: resolving one value row of a `pagelinks` table dump
//! against the page index, and serialization to RDF.

use vstd::prelude::*;
use crate::index::PageIndex;
use crate::pages::PageView;
use crate::utils::chars_to_string;
use crate::utils::clean_title;
use crate::utils::clean_title_spec;
use crate::utils::dec_rep;
use crate::utils::parse_u32;
use crate::utils::parse_u32_spec;
use crate::utils::parse_u64;
use crate::utils::parse_u64_spec;
use crate::utils::push_char_vec;
use crate::utils::push_chars;
use crate::utils::u64_to_digits;

verus! {

/// A link between two pages, both known to the current run.
#[derive(Debug, Clone, Copy, PartialEq, Eq, Structural)]
pub struct Link {
    pub from_id: u64,
    pub to_id: u64,
}

/// Why decoding a link failed. The first two variants are fatal schema
/// errors; `ReferenceNotFound` is recoverable: the row is dropped and the
/// conversion continues.
#[derive(Debug, Clone, Copy, PartialEq, Eq, Structural)]
pub enum LinkError {
    /// The value row did not carry exactly 4 fields.
    FieldCount,
    /// The source id or the destination namespace did not parse.
    FieldParse,
    /// The source id is unknown, or the destination title does not
    /// resolve in the page index.
    ReferenceNotFound,
}

/// What resolving one 4-field `pagelinks` row against an index yields:
/// field 0 is the source id, field 1 the destination namespace, field 2
/// the raw destination title (normalized before lookup); field 3 is
/// unused. A link is produced exactly when the source id is known and the
/// normalized (title, namespace) pair resolves.
pub open spec fn link_from_sql_spec(
    contents: Map<(Seq<char>, u32), PageView>,
    known: Set<u64>,
    row: Seq<Seq<char>>,
) -> Result<Link, LinkError> {
    if row.len() != 4 {
        Err(LinkError::FieldCount)
    } else if parse_u64_spec(row[0]) is None || parse_u32_spec(row[1]) is None {
        Err(LinkError::FieldParse)
    } else {
        let from_id = parse_u64_spec(row[0]).unwrap();
        let ns = parse_u32_spec(row[1]).unwrap();
        let key = (clean_title_spec(row[2]), ns);
        if !known.contains(from_id) {
            Err(LinkError::ReferenceNotFound)
        } else if !contents.contains_key(key) {
            Err(LinkError::ReferenceNotFound)
        } else {
            Ok(Link { from_id, to_id: contents[key].pageid })
        }
    }
}

/// The RDF triple line of a link: `<from> <linksto> <to> .`
pub open spec fn link_rdf_spec(l: Link) -> Seq<char> {
    "<"@ + dec_rep(l.from_id as nat) + "> <linksto> <"@ + dec_rep(l.to_id as nat) + "> ."@
}

impl Link {
    /// Resolve the `values` of one row of a `pagelinks` table dump
    /// against the page index.
    pub fn from_sql(index: &PageIndex, values: Vec<String>) -> (r: Result<Link, LinkError>)
        requires
            index.wf(),
        ensures
            r == link_from_sql_spec(index.contents(), index.known_ids(), values.deep_view()),
    {
        if values.len() != 4 {
            return Err(LinkError::FieldCount);
        }
        proof {
            assert(values.deep_view().len() == 4);
            assert(values.deep_view()[0] == values@[0]@);
            assert(values.deep_view()[1] == values@[1]@);
            assert(values.deep_view()[2] == values@[2]@);
        }
        let from_id = match parse_u64(&values[0]) {
            Some(v) => v,
            None => {
                return Err(LinkError::FieldParse);
            },
        };
        let to_namespace = match parse_u32(&values[1]) {
            Some(v) => v,
            None => {
                return Err(LinkError::FieldParse);
            },
        };
        if !index.contains_id(from_id) {
            return Err(LinkError::ReferenceNotFound);
        }
        let to_title = clean_title(&values[2]);
        match index.lookup(&to_title, to_namespace) {
            Some(page) => Ok(Link { from_id, to_id: page.pageid }),
            None => Err(LinkError::ReferenceNotFound),
        }
    }

    /// Serialize a link as its RDF triple.
    pub fn to_rdf(&self) -> (r: String)
        ensures
            r@ == link_rdf_spec(*self),
    {
        let from_digits = u64_to_digits(self.from_id);
        let to_digits = u64_to_digits(self.to_id);
        let mut v: Vec<char> = Vec::new();
        push_chars(&mut v, "<");
        push_char_vec(&mut v, &from_digits);
        push_chars(&mut v, "> <linksto> <");
        push_char_vec(&mut v, &to_digits);
        push_chars(&mut v, "> .");
        proof {
            assert(v@ =~= link_rdf_spec(*self));
        }
        chars_to_string(v.as_slice())
    }
}

/// A link is produced if and only if the source id is known and the
/// normalized destination (title, namespace) pair resolves in the index;
/// every other well-formed row yields the recoverable `ReferenceNotFound`,
/// never a fatal error.
pub proof fn lemma_link_resolution_totality(
    contents: Map<(Seq<char>, u32), PageView>,
    known: Set<u64>,
    row: Seq<Seq<char>>,
)
    requires
        row.len() == 4,
        parse_u64_spec(row[0]) is Some,
        parse_u32_spec(row[1]) is Some,
    ensures
        link_from_sql_spec(contents, known, row) is Ok <==> (known.contains(
            parse_u64_spec(row[0]).unwrap(),
        ) && contents.contains_key(
            (clean_title_spec(row[2]), parse_u32_spec(row[1]).unwrap()),
        )),
        link_from_sql_spec(contents, known, row) is Err ==> link_from_sql_spec(
            contents,
            known,
            row,
        ) == Err::<Link, LinkError>(LinkError::ReferenceNotFound),
{
}

} // verus!
