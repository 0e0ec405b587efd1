//! Rules on the text of SAM headers: reference sequence names.

use vstd::prelude::*;
use vstd::string::StrSliceExecFns;

verus! {

/// Whether `c` may stand in a reference sequence name: a printable ASCII
/// character other than `\ , " ` ' ( ) [ ] { } < >`.
pub open spec fn is_name_char(c: char) -> bool {
    &&& '!' <= c <= '~'
    &&& c != '\\'
    &&& c != ','
    &&& c != '"'
    &&& c != '`'
    &&& c != '\''
    &&& c != '('
    &&& c != ')'
    &&& c != '['
    &&& c != ']'
    &&& c != '{'
    &&& c != '}'
    &&& c != '<'
    &&& c != '>'
}

/// Whether `s` is a valid reference sequence name: not empty, not starting
/// with `*` or `=`, and made of name characters.
pub open spec fn is_valid_name_spec(s: Seq<char>) -> bool {
    &&& s.len() > 0
    &&& s[0] != '*'
    &&& s[0] != '='
    &&& forall|i: int| 0 <= i < s.len() ==> is_name_char(#[trigger] s[i])
}

/// Whether `c` may stand in a reference sequence name.
pub fn is_valid_name_char(c: char) -> (r: bool)
    ensures
        r == is_name_char(c),
{
    '!' <= c && c <= '~' && c != '\\' && c != ',' && c != '"' && c != '`' && c != '\'' && c != '('
        && c != ')' && c != '[' && c != ']' && c != '{' && c != '}' && c != '<' && c != '>'
}

/// Whether `name` is a valid reference sequence name.
pub fn is_valid_name(name: &str) -> (r: bool)
    ensures
        r == is_valid_name_spec(name@),
{
    let n = name.unicode_len();
    if n == 0 {
        return false;
    }
    let first = name.get_char(0);
    if first == '*' || first == '=' {
        return false;
    }
    let mut i: usize = 0;
    while i < n
        invariant
            n == name@.len(),
            i <= n,
            forall|j: int| 0 <= j < i ==> is_name_char(#[trigger] name@[j]),
        decreases n - i,
    {
        if !is_valid_name_char(name.get_char(i)) {
            return false;
        }
        i = i + 1;
    }
    true
}

/// Whether every reference sequence name of a header is valid.
pub fn has_valid_reference_sequence_names(names: &Vec<String>) -> (r: bool)
    ensures
        r == forall|i: int| 0 <= i < names@.len() ==> is_valid_name_spec(#[trigger] names@[i]@),
{
    let mut i: usize = 0;
    while i < names.len()
        invariant
            i <= names@.len(),
            forall|j: int| 0 <= j < i ==> is_valid_name_spec(#[trigger] names@[j]@),
        decreases names@.len() - i,
    {
        if !is_valid_name(names[i].as_str()) {
            return false;
        }
        i = i + 1;
    }
    true
}

/// Why a reference sequence id could not be resolved to a name.
#[derive(Clone, Copy, Debug, PartialEq, Eq, Structural)]
pub enum ReferenceSequenceError {
    /// No reference sequence with a valid name has this id.
    InvalidReferenceSequenceId,
}

/// The name of the reference sequence that `reference_sequence_id` names
/// among a header's `names`, or `None` when there is no id.
///
/// Fails when the id is negative or past the last reference sequence, or
/// when that reference sequence's name is not a valid name.
pub fn get_reference_sequence_name(names: &Vec<String>, reference_sequence_id: Option<i32>) -> (r: Result<
    Option<String>,
    ReferenceSequenceError,
>)
    ensures
        reference_sequence_id is None ==> r matches Ok(None),
        reference_sequence_id matches Some(id) ==> (r is Ok <==> 0 <= id < names@.len()
            && is_valid_name_spec(names@[id as int]@)),
        reference_sequence_id matches Some(id) ==> (r matches Ok(Some(name)) ==> name@ == names@[id as int]@),
        r is Ok ==> (r->Ok_0 is Some <==> reference_sequence_id is Some),
        r is Err ==> r == Err::<Option<String>, ReferenceSequenceError>(
            ReferenceSequenceError::InvalidReferenceSequenceId,
        ),
{
    match reference_sequence_id {
        None => Ok(None),
        Some(id) => {
            if id < 0 || id as usize >= names.len() {
                return Err(ReferenceSequenceError::InvalidReferenceSequenceId);
            }
            let name = &names[id as usize];
            if !is_valid_name(name.as_str()) {
                return Err(ReferenceSequenceError::InvalidReferenceSequenceId);
            }
            Ok(Some(name.clone()))
        },
    }
}

/// Why a record could not be written.
#[derive(Clone, Copy, Debug, PartialEq, Eq, Structural)]
pub enum WriteError {
    /// A reference sequence name of the header is invalid.
    InvalidReferenceSequenceNames,
    /// The record does not have exactly the eleven mandatory fields.
    InvalidFieldCount,
}

/// The number of mandatory fields of a SAM record.
pub const MANDATORY_FIELDS: usize = 11;

/// The fields of `fields` joined by tabs.
pub open spec fn join_tab(fields: Seq<Seq<u8>>) -> Seq<u8>
    decreases fields.len(),
{
    if fields.len() == 0 {
        Seq::empty()
    } else if fields.len() == 1 {
        fields[0]
    } else {
        join_tab(fields.drop_last()) + seq![0x09u8] + fields.last()
    }
}

/// Each optional field of `data` preceded by a tab.
pub open spec fn tab_prefixed(data: Seq<Seq<u8>>) -> Seq<u8>
    decreases data.len(),
{
    if data.len() == 0 {
        Seq::empty()
    } else {
        tab_prefixed(data.drop_last()) + seq![0x09u8] + data.last()
    }
}

/// The line of a SAM record with mandatory fields `fields` and optional
/// fields `data`, each in its text form.
pub open spec fn record_line(fields: Seq<Seq<u8>>, data: Seq<Seq<u8>>) -> Seq<u8> {
    join_tab(fields) + tab_prefixed(data) + seq![0x0au8]
}

/// Writes a SAM record line: the eleven mandatory fields, each already in
/// its text form, separated by tabs, then each optional field after a tab,
/// then a newline.
///
/// Fails, writing nothing, when a reference sequence name of the header is
/// invalid or when there are not eleven mandatory fields.
pub fn write_record(
    out: &mut Vec<u8>,
    reference_sequence_names: &Vec<String>,
    fields: &Vec<Vec<u8>>,
    data: &Vec<Vec<u8>>,
) -> (r: Result<(), WriteError>)
    ensures
        !(forall|i: int|
            0 <= i < reference_sequence_names@.len() ==> is_valid_name_spec(
                #[trigger] reference_sequence_names@[i]@,
            )) ==> r == Err::<(), WriteError>(WriteError::InvalidReferenceSequenceNames),
        (forall|i: int|
            0 <= i < reference_sequence_names@.len() ==> is_valid_name_spec(
                #[trigger] reference_sequence_names@[i]@,
            )) ==> (r is Ok <==> fields@.len() == MANDATORY_FIELDS),
        r is Err ==> final(out)@ == old(out)@,
        r is Ok ==> final(out)@ == old(out)@ + record_line(
            fields@.map_values(|f: Vec<u8>| f@),
            data@.map_values(|d: Vec<u8>| d@),
        ),
{
    if !has_valid_reference_sequence_names(reference_sequence_names) {
        return Err(WriteError::InvalidReferenceSequenceNames);
    }
    if fields.len() != MANDATORY_FIELDS {
        return Err(WriteError::InvalidFieldCount);
    }
    let ghost start = out@;
    let ghost fs = fields@.map_values(|f: Vec<u8>| f@);
    let ghost ds = data@.map_values(|d: Vec<u8>| d@);
    let mut i: usize = 0;
    while i < fields.len()
        invariant
            fs == fields@.map_values(|f: Vec<u8>| f@),
            i <= fields@.len(),
            fields@.len() == MANDATORY_FIELDS,
            out@ == start + join_tab(fs.take(i as int)),
        decreases fields@.len() - i,
    {
        if i > 0 {
            out.push(0x09);
        }
        crate::block::push_all(out, fields[i].as_slice());
        proof {
            let t = fs.take(i + 1);
            assert(t.drop_last() =~= fs.take(i as int));
            assert(t.last() == fields@[i as int]@);
            if i == 0 {
                assert(join_tab(fs.take(0)) =~= Seq::<u8>::empty());
                assert(out@ =~= start + join_tab(t));
            } else {
                assert(out@ =~= start + join_tab(t));
            }
        }
        i = i + 1;
    }
    let ghost mid = out@;
    let mut j: usize = 0;
    proof {
        assert(fs.take(i as int) =~= fs);
        assert(ds.take(0) =~= Seq::<Seq<u8>>::empty());
        assert(mid =~= start + join_tab(fs) + tab_prefixed(ds.take(0)));
    }
    while j < data.len()
        invariant
            ds == data@.map_values(|d: Vec<u8>| d@),
            j <= data@.len(),
            out@ == start + join_tab(fs) + tab_prefixed(ds.take(j as int)),
        decreases data@.len() - j,
    {
        out.push(0x09);
        crate::block::push_all(out, data[j].as_slice());
        proof {
            let t = ds.take(j + 1);
            assert(t.drop_last() =~= ds.take(j as int));
            assert(t.last() == data@[j as int]@);
            assert(out@ =~= start + join_tab(fs) + tab_prefixed(t));
        }
        j = j + 1;
    }
    out.push(0x0a);
    proof {
        assert(ds.take(j as int) =~= ds);
        assert(out@ =~= start + record_line(fs, ds));
    }
    Ok(())
}

} // verus!
