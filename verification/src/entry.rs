//! Declared interface entries and the signature builder: canonical method
//! names, 4-byte selectors, and verbose human-readable declarations.

use vstd::prelude::*;
use vstd::utf8::encode_utf8;
use vstd::string::StringSliceAdditionalSpecFns;
use crate::outside::{keccak_of, keccak256};

verus! {

broadcast use vstd::std_specs::vec::group_vec_axioms;

/// What kind of interface entry a declaration is.
#[derive(Debug, Clone, Copy, PartialEq, Eq)]
pub enum EntryKind {
    Function,
    Fallback,
    Event,
    Constructor,
    /// Any other declared kind; rendered without a kind word.
    Other,
}

/// Declared state mutability of an entry.
#[derive(Debug, Clone, Copy, PartialEq, Eq)]
pub enum Mutability {
    Unknown,
    Pure,
    View,
    Nonpayable,
    Payable,
}

/// One named, typed parameter of an entry.
#[derive(Debug, PartialEq, Eq)]
pub struct AbiParam {
    pub name: String,
    /// The raw declared type string, e.g. `"uint256"`.
    pub type_str: String,
    /// Set for indexed event parameters.
    pub indexed: bool,
}

/// A declared interface entry, supplied fully formed and only read here.
#[derive(Debug, PartialEq, Eq)]
pub struct AbiEntry {
    pub kind: EntryKind,
    pub name: String,
    pub inputs: Vec<AbiParam>,
    pub outputs: Vec<AbiParam>,
    pub payable: bool,
    pub mutability: Mutability,
}

/// Joins text pieces with a separator between neighbours.
pub open spec fn join_with(parts: Seq<Seq<char>>, sep: Seq<char>) -> Seq<char>
    decreases parts.len(),
{
    if parts.len() == 0 {
        Seq::empty()
    } else if parts.len() == 1 {
        parts[0]
    } else {
        join_with(parts.drop_last(), sep) + sep + parts.last()
    }
}

/// The declared type strings of a parameter list.
pub open spec fn type_strs_of(ps: Seq<AbiParam>) -> Seq<Seq<char>> {
    ps.map_values(|p: AbiParam| p.type_str@)
}

/// The canonical signature `name(type1,type2,...)` hashed for the selector:
/// raw type strings, comma-joined with no spaces.
pub open spec fn method_name_of(e: AbiEntry) -> Seq<char> {
    e.name@ + "("@ + join_with(type_strs_of(e.inputs@), ","@) + ")"@
}

/// How one argument renders in the verbose declaration.
pub open spec fn pretty_arg_of(p: AbiParam) -> Seq<char> {
    if p.name@.len() == 0 {
        p.type_str@
    } else if p.indexed {
        p.type_str@ + " indexed "@ + p.name@
    } else {
        p.type_str@ + " "@ + p.name@
    }
}

/// The kind word opening the verbose declaration.
pub open spec fn kind_word_of(k: EntryKind) -> Seq<char> {
    match k {
        EntryKind::Function => "function"@,
        EntryKind::Fallback => "function"@,
        EntryKind::Event => "event"@,
        EntryKind::Constructor => "constructor"@,
        EntryKind::Other => Seq::empty(),
    }
}

/// The verbose human-readable declaration of an entry.
pub open spec fn pretty_of(e: AbiEntry) -> Seq<char> {
    kind_word_of(e.kind) + (if e.kind is Fallback {
        Seq::<char>::empty()
    } else {
        " "@ + e.name@
    }) + "("@ + join_with(e.inputs@.map_values(|p: AbiParam| pretty_arg_of(p)), ", "@) + ")"@ + (
    if e.payable {
        " payable"@
    } else {
        Seq::<char>::empty()
    }) + (if e.mutability is View {
        " view"@
    } else {
        Seq::<char>::empty()
    }) + (if e.outputs@.len() > 0 {
        " returns ("@ + join_with(type_strs_of(e.outputs@), ", "@) + ")"@
    } else {
        Seq::<char>::empty()
    })
}

/// A string-building fault in the verbose renderer.  Kept as an error kind
/// for callers even though the builder here cannot fail.
#[derive(Debug, Clone, Copy, PartialEq, Eq)]
pub enum FormatError {
    IoFailure,
}

/// Appends the declared type strings of `ps`, joined with `sep`, to `s`.
fn append_joined_type_strs(s: &mut String, ps: &Vec<AbiParam>, sep: &str)
    ensures
        final(s)@ == old(s)@ + join_with(type_strs_of(ps@), sep@),
{
    let n = ps.len();
    let mut i: usize = 0;
    while i < n
        invariant
            0 <= i <= n,
            n == ps@.len(),
            s@ == old(s)@ + join_with(type_strs_of(ps@.take(i as int)), sep@),
        decreases n - i,
    {
        if i > 0 {
            s.append(sep);
        }
        s.append(ps[i].type_str.as_str());
        proof {
            let parts = type_strs_of(ps@.take(i + 1));
            assert(parts.drop_last() =~= type_strs_of(ps@.take(i as int)));
            assert(parts.last() == ps@[i as int].type_str@);
            if i == 0 {
                assert(s@ =~= old(s)@ + join_with(parts, sep@));
            } else {
                assert(s@ =~= old(s)@ + join_with(parts, sep@));
            }
        }
        i = i + 1;
    }
    proof {
        assert(ps@.take(n as int) =~= ps@);
    }
}

/// Appends the verbose argument renderings of `ps`, joined with `sep`.
fn append_joined_pretty_args(s: &mut String, ps: &Vec<AbiParam>, sep: &str)
    ensures
        final(s)@ == old(s)@ + join_with(ps@.map_values(|p: AbiParam| pretty_arg_of(p)), sep@),
{
    let n = ps.len();
    let mut i: usize = 0;
    while i < n
        invariant
            0 <= i <= n,
            n == ps@.len(),
            s@ == old(s)@ + join_with(
                ps@.take(i as int).map_values(|p: AbiParam| pretty_arg_of(p)),
                sep@,
            ),
        decreases n - i,
    {
        if i > 0 {
            s.append(sep);
        }
        let p = &ps[i];
        if p.name.as_str().is_empty() {
            s.append(p.type_str.as_str());
        } else if p.indexed {
            s.append(p.type_str.as_str());
            s.append(" indexed ");
            s.append(p.name.as_str());
        } else {
            s.append(p.type_str.as_str());
            s.append(" ");
            s.append(p.name.as_str());
        }
        proof {
            let parts = ps@.take(i + 1).map_values(|q: AbiParam| pretty_arg_of(q));
            assert(parts.drop_last() =~= ps@.take(i as int).map_values(
                |q: AbiParam| pretty_arg_of(q),
            ));
            assert(parts.last() == pretty_arg_of(ps@[i as int]));
            assert(s@ =~= old(s)@ + join_with(parts, sep@));
        }
        i = i + 1;
    }
    proof {
        assert(ps@.take(n as int) =~= ps@);
    }
}

/// The canonical `name(type1,type2,...)` signature of an entry, using raw
/// type strings with no spaces.
pub fn entry_to_method_name(entry: &AbiEntry) -> (r: String)
    ensures
        r@ == method_name_of(*entry),
{
    let mut s = String::new();
    s.append(entry.name.as_str());
    s.append("(");
    append_joined_type_strs(&mut s, &entry.inputs, ",");
    s.append(")");
    proof {
        assert(s@ =~= method_name_of(*entry));
    }
    s
}

/// The verbose declaration of an entry: kind word, name (omitted for
/// fallback entries), argument list, `payable` and `view` markers, and the
/// return types when there are any.
#[verifier::rlimit(100)]
pub fn entry_to_method_name_pretty(entry: &AbiEntry) -> (r: Result<String, FormatError>)
    ensures
        r is Ok,
        r matches Ok(s) ==> s@ == pretty_of(*entry),
{
    let mut s = String::new();
    match entry.kind {
        EntryKind::Function => s.append("function"),
        EntryKind::Fallback => s.append("function"),
        EntryKind::Event => s.append("event"),
        EntryKind::Constructor => s.append("constructor"),
        EntryKind::Other => (),
    }
    if !matches!(entry.kind, EntryKind::Fallback) {
        s.append(" ");
        s.append(entry.name.as_str());
    }
    s.append("(");
    append_joined_pretty_args(&mut s, &entry.inputs, ", ");
    s.append(")");
    if entry.payable {
        s.append(" payable");
    }
    if matches!(entry.mutability, Mutability::View) {
        s.append(" view");
    }
    if entry.outputs.len() > 0 {
        s.append(" returns (");
        append_joined_type_strs(&mut s, &entry.outputs, ", ");
        s.append(")");
    }
    proof {
        assert(s@ =~= pretty_of(*entry));
    }
    Ok(s)
}

/// The raw declared input type strings of an entry.
pub fn entry_to_input_types<'a>(entry: &'a AbiEntry) -> (r: Vec<&'a str>)
    ensures
        r@.len() == entry.inputs@.len(),
        forall|i: int| 0 <= i < r@.len() ==> r@[i]@ == entry.inputs@[i].type_str@,
{
    let mut out: Vec<&str> = Vec::new();
    let n = entry.inputs.len();
    let mut i: usize = 0;
    while i < n
        invariant
            0 <= i <= n,
            n == entry.inputs@.len(),
            out@.len() == i,
            forall|j: int| 0 <= j < i ==> out@[j]@ == entry.inputs@[j].type_str@,
        decreases n - i,
    {
        out.push(entry.inputs[i].type_str.as_str());
        i = i + 1;
    }
    out
}

/// The raw declared output type strings of an entry.
pub fn entry_to_output_types<'a>(entry: &'a AbiEntry) -> (r: Vec<&'a str>)
    ensures
        r@.len() == entry.outputs@.len(),
        forall|i: int| 0 <= i < r@.len() ==> r@[i]@ == entry.outputs@[i].type_str@,
{
    let mut out: Vec<&str> = Vec::new();
    let n = entry.outputs.len();
    let mut i: usize = 0;
    while i < n
        invariant
            0 <= i <= n,
            n == entry.outputs@.len(),
            out@.len() == i,
            forall|j: int| 0 <= j < i ==> out@[j]@ == entry.outputs@[j].type_str@,
        decreases n - i,
    {
        out.push(entry.outputs[i].type_str.as_str());
        i = i + 1;
    }
    out
}

/// The 4-byte selector of a method: the first four bytes of the keccak-256
/// digest of the signature string's bytes.
pub fn fnhash(fname: &str) -> (r: [u8; 4])
    ensures
        r@ == keccak_of(fname.spec_bytes()).take(4),
{
    let h = keccak256(fname.as_bytes());
    let r = [h[0], h[1], h[2], h[3]];
    proof {
        assert(r@ =~= keccak_of(fname.spec_bytes()).take(4));
    }
    r
}

/// Selector determinism: the canonical signature, and hence the bytes hashed
/// for the selector, depend only on an entry's name and its declared input
/// type strings; parameter names, outputs and flags play no part.
pub proof fn lemma_selector_determinism(e1: AbiEntry, e2: AbiEntry)
    requires
        e1.name@ == e2.name@,
        type_strs_of(e1.inputs@) == type_strs_of(e2.inputs@),
    ensures
        method_name_of(e1) == method_name_of(e2),
        keccak_of(encode_utf8(method_name_of(e1))) == keccak_of(
            encode_utf8(method_name_of(e2)),
        ),
{
}

} // verus!
