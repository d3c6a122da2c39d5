//! The name-metadata section: a self-describing sequence of typed,
//! size-prefixed subsections holding a module name, function names and
//! local-variable names.
//!
//! Deserialization cross-validates every index against the shape of the
//! already-parsed module; an unrecognized subsection tag is skipped by
//! its declared size, which is checked against the bytes that actually
//! remain.

use vstd::prelude::*;
use vstd::utf8::encode_utf8;

use crate::index_map::{dec_map, decodes_value, enc_map, inner_maps_wf, keys_bounded,
    keys_sorted, lemma_dec_map_shrinks, lemma_map_round_trip, local_map_fits, local_map_view,
    name_map_entry_decoder, name_map_entry_encoder, name_map_fits, name_map_view,
    string_entry_decoder, string_entry_encoder, IndexMap};
use crate::io::{readable, Error, Read, Seek, Write};
use crate::module::{first_code_section, first_type_section, locals_total_from, max_locals_from,
    max_params_from, sat_add, spec_functions_space, spec_local_space, CodeSection, FuncBody,
    Module, Type, TypeSection};
use crate::primitives::{dec_string, dec_varuint32, enc_string, enc_varuint32,
    lemma_dec_string_shrinks, lemma_dec_varuint_shrinks, lemma_string_round_trip,
    lemma_varuint32_round_trip, preserves_reader, reader_ok, read_byte, serialize_string,
    deserialize_string, Decoded, VarUint32};

verus! {

/// Subsection tag of the module name.
pub const NAME_TYPE_MODULE: u8 = 0;

/// Subsection tag of the function names.
pub const NAME_TYPE_FUNCTION: u8 = 1;

/// Subsection tag of the local-variable names.
pub const NAME_TYPE_LOCAL: u8 = 2;

/// A map from indices to names.
pub type NameMap = IndexMap<String>;

/// Abstract value of a name section: each subsection reduced to plain
/// sequences.
pub struct NameSectionView {
    pub module: Option<Seq<char>>,
    pub functions: Option<Seq<(u32, Seq<char>)>>,
    pub locals: Option<Seq<(u32, Seq<(u32, Seq<char>)>)>>,
}

/// The name of this module.
#[derive(Clone, Debug, PartialEq)]
pub struct ModuleNameSubsection {
    name: String,
}

impl View for ModuleNameSubsection {
    type V = Seq<char>;

    closed spec fn view(&self) -> Seq<char> {
        self.name@
    }
}

impl ModuleNameSubsection {
    /// Create a new module name subsection with the given name.
    pub fn new(name: &str) -> (r: ModuleNameSubsection)
        ensures
            r@ == name@,
    {
        ModuleNameSubsection { name: name.to_owned() }
    }

    /// The name of this module.
    pub fn name(&self) -> (r: &str)
        ensures
            r@ == self@,
    {
        self.name.as_str()
    }

    /// The name of this module (mutable).
    pub fn name_mut(&mut self) -> (r: &mut String)
        ensures
            (*r)@ == old(self)@,
            final(self)@ == (*final(r))@,
    {
        &mut self.name
    }

    /// Write the name as a length-prefixed string.
    pub fn serialize<W: Write>(&self, wtr: &mut W) -> (r: Result<(), Error>)
        ensures
            final(wtr).infallible() == old(wtr).infallible(),
            r is Ok ==> final(wtr).sink() == old(wtr).sink() + enc_string(self@),
            old(wtr).infallible() ==> (r is Ok <==> encode_utf8(self@).len() <= u32::MAX),
            old(wtr).infallible() && r is Err ==> r == Err::<(), Error>(Error::InvalidData),
    {
        serialize_string(self.name.as_str(), wtr)
    }

    /// Read a length-prefixed string.
    pub fn deserialize<R: Read>(rdr: &mut R) -> (r: Result<ModuleNameSubsection, Error>)
        ensures
            preserves_reader(old(rdr), final(rdr)),
            r matches Ok(m) ==> {
                &&& reader_ok(old(rdr))
                &&& reader_ok(final(rdr))
                &&& dec_string(readable(old(rdr))) == (Decoded::Found {
                    value: m@,
                    rest: readable(final(rdr)),
                })
            },
            old(rdr).reliable() ==> (r matches Err(e) ==> dec_string(readable(old(rdr)))
                == (Decoded::Fail::<Seq<char>> { err: e })),
    {
        let name = match deserialize_string(rdr) {
            Ok(n) => n,
            Err(e) => {
                return Err(e);
            },
        };
        Ok(ModuleNameSubsection { name })
    }
}

/// The names of the functions in this module.
#[derive(Clone, Debug, Default, PartialEq)]
pub struct FunctionNameSubsection {
    /// A map from function indices to names.
    pub names: NameMap,
}

impl View for FunctionNameSubsection {
    type V = Seq<(u32, Seq<char>)>;

    open spec fn view(&self) -> Seq<(u32, Seq<char>)> {
        name_map_view(self.names)
    }
}

impl FunctionNameSubsection {
    /// A map from function indices to names.
    pub fn names(&self) -> (r: &NameMap)
        ensures
            *r == self.names,
    {
        &self.names
    }

    /// A map from function indices to names (mutable).
    pub fn names_mut(&mut self) -> (r: &mut NameMap)
        ensures
            *r == old(self).names,
            final(self).names == *final(r),
    {
        &mut self.names
    }

    /// Write the map of function names.
    pub fn serialize<W: Write>(&self, wtr: &mut W) -> (r: Result<(), Error>)
        ensures
            final(wtr).infallible() == old(wtr).infallible(),
            r is Ok ==> final(wtr).sink() == old(wtr).sink() + enc_map(
                self@,
                string_entry_encoder(),
            ),
            old(wtr).infallible() ==> (r is Ok <==> name_map_fits(self@)),
            old(wtr).infallible() && r is Err ==> r == Err::<(), Error>(Error::InvalidData),
    {
        self.names.serialize(wtr)
    }

    /// Read a map of function names, making sure every index falls
    /// inside the module's function space.
    pub fn deserialize<R: Read>(module: &Module, rdr: &mut R) -> (r: Result<
        FunctionNameSubsection,
        Error,
    >)
        ensures
            preserves_reader(old(rdr), final(rdr)),
            r matches Ok(m) ==> {
                &&& m.names.wf()
                &&& reader_ok(old(rdr))
                &&& reader_ok(final(rdr))
                &&& dec_map(readable(old(rdr)), spec_functions_space(*module),
                string_entry_decoder()) == (Decoded::Found {
                    value: m@,
                    rest: readable(final(rdr)),
                })
            },
            old(rdr).reliable() ==> (r matches Err(e) ==> dec_map(
                readable(old(rdr)),
                spec_functions_space(*module),
                string_entry_decoder(),
            ) == (Decoded::Fail::<Seq<(u32, Seq<char>)>> { err: e })),
    {
        let space = module.functions_space();
        let names = match IndexMap::<String>::deserialize(space, rdr) {
            Ok(n) => n,
            Err(e) => {
                return Err(e);
            },
        };
        Ok(FunctionNameSubsection { names })
    }
}

/// The names of the local variables in this module's functions.
#[derive(Clone, Debug, Default, PartialEq)]
pub struct LocalNameSubsection {
    /// A map from function indices to a map from variable indices to
    /// names.
    pub local_names: IndexMap<NameMap>,
}

impl View for LocalNameSubsection {
    type V = Seq<(u32, Seq<(u32, Seq<char>)>)>;

    open spec fn view(&self) -> Seq<(u32, Seq<(u32, Seq<char>)>)> {
        local_map_view(self.local_names)
    }
}

/// The largest parameter count any signature of the section declares.
fn max_signature_args(ts: &TypeSection) -> (r: u64)
    ensures
        r as nat == max_params_from(ts.types@, 0),
{
    proof {
        assert(ts.types@.skip(0) =~= ts.types@);
    }
    let n = ts.types.len();
    let mut acc: u64 = 0;
    let mut i: usize = 0;
    while i < n
        invariant
            i <= n,
            n == ts.types@.len(),
            max_params_from(ts.types@.skip(i as int), acc as nat) == max_params_from(ts.types@, 0),
        decreases n - i,
    {
        proof {
            assert(ts.types@.skip(i as int).skip(1) =~= ts.types@.skip(i + 1));
            assert(ts.types@.skip(i as int)[0] == ts.types@[i as int]);
        }
        let cur: u64 = match &ts.types[i] {
            Type::Function(ft) => ft.params.len() as u64,
        };
        if cur > acc {
            acc = cur;
        }
        i = i + 1;
    }
    acc
}

/// The declared local-variable total of one body, saturating.
fn body_locals(b: &FuncBody) -> (r: u64)
    ensures
        r as nat == locals_total_from(b.locals@, 0),
{
    proof {
        assert(b.locals@.skip(0) =~= b.locals@);
    }
    let n = b.locals.len();
    let mut acc: u64 = 0;
    let mut i: usize = 0;
    while i < n
        invariant
            i <= n,
            n == b.locals@.len(),
            locals_total_from(b.locals@.skip(i as int), acc as nat) == locals_total_from(
                b.locals@,
                0,
            ),
        decreases n - i,
    {
        proof {
            assert(b.locals@.skip(i as int).skip(1) =~= b.locals@.skip(i + 1));
            assert(b.locals@.skip(i as int)[0] == b.locals@[i as int]);
        }
        acc = sat_add(acc, b.locals[i].count as u64);
        i = i + 1;
    }
    acc
}

/// The largest local-variable total any body of the section declares.
fn max_body_locals(cs: &CodeSection) -> (r: u64)
    ensures
        r as nat == max_locals_from(cs.bodies@, 0),
{
    proof {
        assert(cs.bodies@.skip(0) =~= cs.bodies@);
    }
    let n = cs.bodies.len();
    let mut acc: u64 = 0;
    let mut i: usize = 0;
    while i < n
        invariant
            i <= n,
            n == cs.bodies@.len(),
            max_locals_from(cs.bodies@.skip(i as int), acc as nat) == max_locals_from(
                cs.bodies@,
                0,
            ),
        decreases n - i,
    {
        proof {
            assert(cs.bodies@.skip(i as int).skip(1) =~= cs.bodies@.skip(i + 1));
            assert(cs.bodies@.skip(i as int)[0] == cs.bodies@[i as int]);
        }
        let cur = body_locals(&cs.bodies[i]);
        if cur > acc {
            acc = cur;
        }
        i = i + 1;
    }
    acc
}

impl LocalNameSubsection {
    /// A map from function indices to a map from variable indices to
    /// names.
    pub fn local_names(&self) -> (r: &IndexMap<NameMap>)
        ensures
            *r == self.local_names,
    {
        &self.local_names
    }

    /// A map from function indices to a map from variable indices to
    /// names (mutable).
    pub fn local_names_mut(&mut self) -> (r: &mut IndexMap<NameMap>)
        ensures
            *r == old(self).local_names,
            final(self).local_names == *final(r),
    {
        &mut self.local_names
    }

    /// Write the map of local names.
    pub fn serialize<W: Write>(&self, wtr: &mut W) -> (r: Result<(), Error>)
        ensures
            final(wtr).infallible() == old(wtr).infallible(),
            r is Ok ==> final(wtr).sink() == old(wtr).sink() + enc_map(
                self@,
                name_map_entry_encoder(),
            ),
            old(wtr).infallible() ==> (r is Ok <==> local_map_fits(self@)),
            old(wtr).infallible() && r is Err ==> r == Err::<(), Error>(Error::InvalidData),
    {
        self.local_names.serialize(wtr)
    }

    /// Read a map of local-name maps, making sure every outer index
    /// falls inside the module's function space and every inner index
    /// inside a single bound: the largest parameter count plus the
    /// largest declared local count of any function. The single shared
    /// maximum is intentional; it is a cheap upper bound, not a
    /// per-function exact count, so an index valid only for some other
    /// function's locals is not caught.
    pub fn deserialize<R: Read>(module: &Module, rdr: &mut R) -> (r: Result<
        LocalNameSubsection,
        Error,
    >)
        ensures
            preserves_reader(old(rdr), final(rdr)),
            r matches Ok(m) ==> {
                &&& m.local_names.wf()
                &&& inner_maps_wf(m.local_names)
                &&& reader_ok(old(rdr))
                &&& reader_ok(final(rdr))
                &&& dec_map(
                    readable(old(rdr)),
                    spec_functions_space(*module),
                    name_map_entry_decoder(spec_local_space(*module)),
                ) == (Decoded::Found { value: m@, rest: readable(final(rdr)) })
            },
            old(rdr).reliable() ==> (r matches Err(e) ==> dec_map(
                readable(old(rdr)),
                spec_functions_space(*module),
                name_map_entry_decoder(spec_local_space(*module)),
            ) == (Decoded::Fail::<Seq<(u32, Seq<(u32, Seq<char>)>)>> { err: e })),
    {
        let max_entry_space = module.functions_space();
        let max_args: u64 = match module.type_section() {
            Some(ts) => max_signature_args(ts),
            None => 0,
        };
        let max_locals: u64 = match module.code_section() {
            Some(cs) => max_body_locals(cs),
            None => 0,
        };
        let max_space = sat_add(max_args, max_locals);
        let local_names = match IndexMap::<NameMap>::deserialize_with(
            max_entry_space,
            max_space,
            rdr,
        ) {
            Ok(m) => m,
            Err(e) => {
                return Err(e);
            },
        };
        Ok(LocalNameSubsection { local_names })
    }
}

/// Debug name information, detached from the module that validated it.
#[derive(Clone, Debug, PartialEq)]
pub struct NameSection {
    /// Module name subsection.
    pub module: Option<ModuleNameSubsection>,
    /// Function name subsection.
    pub functions: Option<FunctionNameSubsection>,
    /// Local name subsection.
    pub locals: Option<LocalNameSubsection>,
}

impl View for NameSection {
    type V = NameSectionView;

    open spec fn view(&self) -> NameSectionView {
        NameSectionView {
            module: match self.module {
                Some(m) => Some(m@),
                None => None,
            },
            functions: match self.functions {
                Some(f) => Some(f@),
                None => None,
            },
            locals: match self.locals {
                Some(l) => Some(l@),
                None => None,
            },
        }
    }
}

/// View of an optional module-name subsection.
pub open spec fn opt_module_view(m: Option<ModuleNameSubsection>) -> Option<Seq<char>> {
    match m {
        Some(x) => Some(x@),
        None => None,
    }
}

/// View of an optional function-name subsection.
pub open spec fn opt_functions_view(f: Option<FunctionNameSubsection>) -> Option<
    Seq<(u32, Seq<char>)>,
> {
    match f {
        Some(x) => Some(x@),
        None => None,
    }
}

/// View of an optional local-name subsection.
pub open spec fn opt_locals_view(l: Option<LocalNameSubsection>) -> Option<
    Seq<(u32, Seq<(u32, Seq<char>)>)>,
> {
    match l {
        Some(x) => Some(x@),
        None => None,
    }
}

/// Framing of one subsection: its tag byte, the byte length of its
/// payload, then the payload.
pub open spec fn enc_subsection(tag: u8, payload: Seq<u8>) -> Seq<u8> {
    seq![tag] + enc_varuint32(payload.len()) + payload
}

/// Encoding of a whole name section: each present subsection framed,
/// in the fixed order module name, function names, local names.
pub open spec fn enc_name_section(v: NameSectionView) -> Seq<u8> {
    (match v.module {
        Some(nm) => enc_subsection(NAME_TYPE_MODULE, enc_string(nm)),
        None => Seq::empty(),
    }) + (match v.functions {
        Some(f) => enc_subsection(NAME_TYPE_FUNCTION, enc_map(f, string_entry_encoder())),
        None => Seq::empty(),
    }) + (match v.locals {
        Some(l) => enc_subsection(NAME_TYPE_LOCAL, enc_map(l, name_map_entry_encoder())),
        None => Seq::empty(),
    })
}

/// Whether a name section can be serialized with 32-bit lengths: each
/// name, each map, and each framed payload must fit one.
pub open spec fn ns_fits(v: NameSectionView) -> bool {
    &&& (v.module matches Some(nm) ==> encode_utf8(nm).len() <= u32::MAX && enc_string(nm).len()
        <= u32::MAX)
    &&& (v.functions matches Some(f) ==> name_map_fits(f) && enc_map(
        f,
        string_entry_encoder(),
    ).len() <= u32::MAX)
    &&& (v.locals matches Some(l) ==> local_map_fits(l) && enc_map(
        l,
        name_map_entry_encoder(),
    ).len() <= u32::MAX)
}

/// A name section that deserialization against the same bounds would
/// accept: each map keeps its keys strictly ascending and below its
/// bound, and everything fits 32-bit lengths.
pub open spec fn ns_valid(v: NameSectionView, fspace: nat, lspace: nat) -> bool {
    &&& ns_fits(v)
    &&& (v.functions matches Some(f) ==> keys_sorted(f) && keys_bounded(f, fspace))
    &&& (v.locals matches Some(l) ==> keys_sorted(l) && keys_bounded(l, fspace) && forall|k: int|
        0 <= k < l.len() ==> keys_sorted((#[trigger] l[k]).1) && keys_bounded(l[k].1, lspace))
}

/// Every name of a fitting string-valued map decodes back from its own
/// encoding.
proof fn lemma_string_values_decode(f: Seq<(u32, Seq<char>)>)
    requires
        name_map_fits(f),
    ensures
        forall|k: int|
            0 <= k < f.len() ==> decodes_value(
                (#[trigger] f[k]).1,
                string_entry_encoder(),
                string_entry_decoder(),
            ),
{
    assert forall|k: int| 0 <= k < f.len() implies decodes_value(
        (#[trigger] f[k]).1,
        string_entry_encoder(),
        string_entry_decoder(),
    ) by {
        let w = f[k].1;
        let e = string_entry_encoder();
        let d = string_entry_decoder();
        assert forall|r: Seq<u8>, idx: u32| #[trigger] d(e(w) + r, idx) == (Decoded::Found {
            value: w,
            rest: r,
        }) by {
            lemma_string_round_trip(w, r);
        }
    }
}

/// Decoding a framed module-name subsection fills the module slot and
/// moves on.
proof fn lemma_step_module(
    nm: Seq<char>,
    tail: Seq<u8>,
    fspace: nat,
    lspace: nat,
    f: Option<Seq<(u32, Seq<char>)>>,
    l: Option<Seq<(u32, Seq<(u32, Seq<char>)>)>>,
)
    requires
        encode_utf8(nm).len() <= u32::MAX,
        enc_string(nm).len() <= u32::MAX,
    ensures
        dec_name_section(
            enc_subsection(NAME_TYPE_MODULE, enc_string(nm)) + tail,
            fspace,
            lspace,
            None,
            f,
            l,
        ) == dec_name_section(tail, fspace, lspace, Some(nm), f, l),
{
    let payload = enc_string(nm);
    let s = enc_subsection(NAME_TYPE_MODULE, payload) + tail;
    assert(s[0] == NAME_TYPE_MODULE);
    assert(s.skip(1) =~= enc_varuint32((payload.len() as u32) as nat) + (payload + tail));
    lemma_varuint32_round_trip(payload.len() as u32, payload + tail);
    assert(payload + tail =~= enc_string(nm) + tail);
    lemma_string_round_trip(nm, tail);
}

/// Decoding a framed function-names subsection fills the functions slot
/// and moves on.
proof fn lemma_step_functions(
    fm: Seq<(u32, Seq<char>)>,
    tail: Seq<u8>,
    fspace: nat,
    lspace: nat,
    m: Option<Seq<char>>,
    l: Option<Seq<(u32, Seq<(u32, Seq<char>)>)>>,
)
    requires
        keys_sorted(fm),
        keys_bounded(fm, fspace),
        name_map_fits(fm),
        enc_map(fm, string_entry_encoder()).len() <= u32::MAX,
    ensures
        dec_name_section(
            enc_subsection(NAME_TYPE_FUNCTION, enc_map(fm, string_entry_encoder())) + tail,
            fspace,
            lspace,
            m,
            None,
            l,
        ) == dec_name_section(tail, fspace, lspace, m, Some(fm), l),
{
    let payload = enc_map(fm, string_entry_encoder());
    let s = enc_subsection(NAME_TYPE_FUNCTION, payload) + tail;
    assert(s[0] == NAME_TYPE_FUNCTION);
    assert(s.skip(1) =~= enc_varuint32((payload.len() as u32) as nat) + (payload + tail));
    lemma_varuint32_round_trip(payload.len() as u32, payload + tail);
    assert(payload + tail =~= enc_map(fm, string_entry_encoder()) + tail);
    lemma_string_values_decode(fm);
    lemma_map_round_trip(fm, tail, fspace, string_entry_encoder(), string_entry_decoder());
}

/// Decoding a framed local-names subsection fills the locals slot and
/// moves on.
proof fn lemma_step_locals(
    lm: Seq<(u32, Seq<(u32, Seq<char>)>)>,
    tail: Seq<u8>,
    fspace: nat,
    lspace: nat,
    m: Option<Seq<char>>,
    f: Option<Seq<(u32, Seq<char>)>>,
)
    requires
        keys_sorted(lm),
        keys_bounded(lm, fspace),
        local_map_fits(lm),
        enc_map(lm, name_map_entry_encoder()).len() <= u32::MAX,
        forall|k: int|
            0 <= k < lm.len() ==> keys_sorted((#[trigger] lm[k]).1) && keys_bounded(
                lm[k].1,
                lspace,
            ),
    ensures
        dec_name_section(
            enc_subsection(NAME_TYPE_LOCAL, enc_map(lm, name_map_entry_encoder())) + tail,
            fspace,
            lspace,
            m,
            f,
            None,
        ) == dec_name_section(tail, fspace, lspace, m, f, Some(lm)),
{
    let payload = enc_map(lm, name_map_entry_encoder());
    let s = enc_subsection(NAME_TYPE_LOCAL, payload) + tail;
    assert(s[0] == NAME_TYPE_LOCAL);
    assert(s.skip(1) =~= enc_varuint32((payload.len() as u32) as nat) + (payload + tail));
    lemma_varuint32_round_trip(payload.len() as u32, payload + tail);
    assert(payload + tail =~= enc_map(lm, name_map_entry_encoder()) + tail);
    assert forall|k: int| 0 <= k < lm.len() implies decodes_value(
        (#[trigger] lm[k]).1,
        name_map_entry_encoder(),
        name_map_entry_decoder(lspace),
    ) by {
        let w = lm[k].1;
        let e = name_map_entry_encoder();
        let d = name_map_entry_decoder(lspace);
        assert forall|r: Seq<u8>, idx: u32| #[trigger] d(e(w) + r, idx) == (Decoded::Found {
            value: w,
            rest: r,
        }) by {
            lemma_string_values_decode(w);
            lemma_map_round_trip(w, r, lspace, string_entry_encoder(), string_entry_decoder());
        }
    }
    lemma_map_round_trip(lm, tail, fspace, name_map_entry_encoder(), name_map_entry_decoder(
        lspace,
    ));
}

/// Round trip: decoding the encoding of any name section whose indices
/// are legal for the given bounds gives the section back, with nothing
/// left over. Together with the contracts of `NameSection::serialize`
/// and `NameSection::deserialize`, deserializing what serialize wrote
/// returns a structurally equal section.
pub proof fn lemma_name_section_round_trip(v: NameSectionView, fspace: nat, lspace: nat)
    requires
        ns_valid(v, fspace, lspace),
    ensures
        dec_name_section(enc_name_section(v), fspace, lspace, None, None, None) == (Decoded::Found {
            value: v,
            rest: Seq::<u8>::empty(),
        }),
{
    let em: Seq<u8> = match v.module {
        Some(nm) => enc_subsection(NAME_TYPE_MODULE, enc_string(nm)),
        None => Seq::empty(),
    };
    let ef: Seq<u8> = match v.functions {
        Some(f) => enc_subsection(NAME_TYPE_FUNCTION, enc_map(f, string_entry_encoder())),
        None => Seq::empty(),
    };
    let el: Seq<u8> = match v.locals {
        Some(l) => enc_subsection(NAME_TYPE_LOCAL, enc_map(l, name_map_entry_encoder())),
        None => Seq::empty(),
    };
    let t1 = ef + el;
    let t2 = el;
    let t3 = Seq::<u8>::empty();
    assert(dec_name_section(enc_name_section(v), fspace, lspace, None, None, None)
        == dec_name_section(t1, fspace, lspace, v.module, None, None)) by {
        match v.module {
            Some(nm) => {
                assert(enc_name_section(v) =~= enc_subsection(NAME_TYPE_MODULE, enc_string(nm))
                    + t1);
                lemma_step_module(nm, t1, fspace, lspace, None, None);
            },
            None => {
                assert(enc_name_section(v) =~= t1);
            },
        }
    }
    assert(dec_name_section(t1, fspace, lspace, v.module, None, None) == dec_name_section(
        t2,
        fspace,
        lspace,
        v.module,
        v.functions,
        None,
    )) by {
        match v.functions {
            Some(f) => {
                assert(t1 =~= enc_subsection(NAME_TYPE_FUNCTION, enc_map(f, string_entry_encoder()))
                    + t2);
                lemma_step_functions(f, t2, fspace, lspace, v.module, None);
            },
            None => {
                assert(t1 =~= t2);
            },
        }
    }
    assert(dec_name_section(t2, fspace, lspace, v.module, v.functions, None) == dec_name_section(
        t3,
        fspace,
        lspace,
        v.module,
        v.functions,
        v.locals,
    )) by {
        match v.locals {
            Some(l) => {
                assert(t2 =~= enc_subsection(NAME_TYPE_LOCAL, enc_map(l, name_map_entry_encoder()))
                    + t3);
                lemma_step_locals(l, t3, fspace, lspace, v.module, v.functions);
            },
            None => {
                assert(t2 =~= t3);
            },
        }
    }
    assert(dec_name_section(t3, fspace, lspace, v.module, v.functions, v.locals) == (Decoded::Found {
        value: v,
        rest: Seq::<u8>::empty(),
    }));
}

/// Duplicate rejection, over whole encodings: a name section followed
/// by one more frame of a kind the section already carries fails
/// decoding with the invalid-data error, whatever the extra frame's
/// declared size and payload.
pub proof fn lemma_repeated_kind_rejected(
    v: NameSectionView,
    tag: u8,
    size: u32,
    body: Seq<u8>,
    fspace: nat,
    lspace: nat,
)
    requires
        ns_valid(v, fspace, lspace),
        tag == NAME_TYPE_MODULE || tag == NAME_TYPE_FUNCTION || tag == NAME_TYPE_LOCAL,
        tag == NAME_TYPE_MODULE ==> v.module is Some,
        tag == NAME_TYPE_FUNCTION ==> v.functions is Some,
        tag == NAME_TYPE_LOCAL ==> v.locals is Some,
    ensures
        dec_name_section(
            enc_name_section(v) + (seq![tag] + enc_varuint32(size as nat) + body),
            fspace,
            lspace,
            None,
            None,
            None,
        ) == (Decoded::Fail::<NameSectionView> { err: Error::InvalidData }),
{
    let dup = seq![tag] + enc_varuint32(size as nat) + body;
    let em: Seq<u8> = match v.module {
        Some(nm) => enc_subsection(NAME_TYPE_MODULE, enc_string(nm)),
        None => Seq::empty(),
    };
    let ef: Seq<u8> = match v.functions {
        Some(f) => enc_subsection(NAME_TYPE_FUNCTION, enc_map(f, string_entry_encoder())),
        None => Seq::empty(),
    };
    let el: Seq<u8> = match v.locals {
        Some(l) => enc_subsection(NAME_TYPE_LOCAL, enc_map(l, name_map_entry_encoder())),
        None => Seq::empty(),
    };
    let t1 = ef + (el + dup);
    let t2 = el + dup;
    assert(dec_name_section(enc_name_section(v) + dup, fspace, lspace, None, None, None)
        == dec_name_section(t1, fspace, lspace, v.module, None, None)) by {
        match v.module {
            Some(nm) => {
                assert(enc_name_section(v) + dup =~= enc_subsection(
                    NAME_TYPE_MODULE,
                    enc_string(nm),
                ) + t1);
                lemma_step_module(nm, t1, fspace, lspace, None, None);
            },
            None => {
                assert(enc_name_section(v) + dup =~= t1);
            },
        }
    }
    assert(dec_name_section(t1, fspace, lspace, v.module, None, None) == dec_name_section(
        t2,
        fspace,
        lspace,
        v.module,
        v.functions,
        None,
    )) by {
        match v.functions {
            Some(f) => {
                assert(t1 =~= enc_subsection(NAME_TYPE_FUNCTION, enc_map(f, string_entry_encoder()))
                    + t2);
                lemma_step_functions(f, t2, fspace, lspace, v.module, None);
            },
            None => {
                assert(t1 =~= t2);
            },
        }
    }
    assert(dec_name_section(t2, fspace, lspace, v.module, v.functions, None) == dec_name_section(
        dup,
        fspace,
        lspace,
        v.module,
        v.functions,
        v.locals,
    )) by {
        match v.locals {
            Some(l) => {
                assert(t2 =~= enc_subsection(NAME_TYPE_LOCAL, enc_map(l, name_map_entry_encoder()))
                    + dup);
                lemma_step_locals(l, dup, fspace, lspace, v.module, v.functions);
            },
            None => {
                assert(t2 =~= dup);
            },
        }
    }
    lemma_duplicate_subsection_rejected(
        tag,
        size,
        body,
        fspace,
        lspace,
        v.module,
        v.functions,
        v.locals,
    );
}

/// Skip safety: an unrecognized tag whose declared size exceeds the
/// bytes that remain fails with the end-of-file error; the decoder
/// never succeeds by seeking past the end.
pub proof fn lemma_skip_past_end_rejected(
    tag: u8,
    size: u32,
    body: Seq<u8>,
    fspace: nat,
    lspace: nat,
    m: Option<Seq<char>>,
    f: Option<Seq<(u32, Seq<char>)>>,
    l: Option<Seq<(u32, Seq<(u32, Seq<char>)>)>>,
)
    requires
        tag != NAME_TYPE_MODULE,
        tag != NAME_TYPE_FUNCTION,
        tag != NAME_TYPE_LOCAL,
        body.len() < size,
    ensures
        dec_name_section(seq![tag] + enc_varuint32(size as nat) + body, fspace, lspace, m, f, l)
            == (Decoded::Fail::<NameSectionView> { err: Error::UnexpectedEof }),
{
    let s = seq![tag] + enc_varuint32(size as nat) + body;
    assert(s[0] == tag);
    assert(s.skip(1) =~= enc_varuint32(size as nat) + body);
    lemma_varuint32_round_trip(size, body);
}

/// Duplicate rejection: a known subsection tag whose kind was already
/// seen in the same section fails with the invalid-data error, whatever
/// its declared size and payload.
pub proof fn lemma_duplicate_subsection_rejected(
    tag: u8,
    size: u32,
    body: Seq<u8>,
    fspace: nat,
    lspace: nat,
    m: Option<Seq<char>>,
    f: Option<Seq<(u32, Seq<char>)>>,
    l: Option<Seq<(u32, Seq<(u32, Seq<char>)>)>>,
)
    requires
        tag == NAME_TYPE_MODULE && m is Some || tag == NAME_TYPE_FUNCTION && f is Some || tag
            == NAME_TYPE_LOCAL && l is Some,
    ensures
        dec_name_section(seq![tag] + enc_varuint32(size as nat) + body, fspace, lspace, m, f, l)
            == (Decoded::Fail::<NameSectionView> { err: Error::InvalidData }),
{
    let s = seq![tag] + enc_varuint32(size as nat) + body;
    assert(s[0] == tag);
    assert(s.skip(1) =~= enc_varuint32(size as nat) + body);
    lemma_varuint32_round_trip(size, body);
}

/// A name-map decode leaves a strictly shorter remainder.
pub proof fn lemma_dec_name_map_shrinks(s: Seq<u8>, bound: nat)
    ensures
        dec_map(s, bound, string_entry_decoder()) matches Decoded::Found { rest, .. } ==> rest.len()
            < s.len(),
{
    let d = string_entry_decoder();
    assert forall|t: Seq<u8>, i: u32|
        (#[trigger] d(t, i)) matches Decoded::Found { rest, .. } ==> rest.len() <= t.len() by {
        lemma_dec_string_shrinks(t);
    }
    lemma_dec_map_shrinks(s, bound, d);
}

/// A local-map decode leaves a strictly shorter remainder.
pub proof fn lemma_dec_local_map_shrinks(s: Seq<u8>, bound: nat, inner_bound: nat)
    ensures
        dec_map(s, bound, name_map_entry_decoder(inner_bound)) matches Decoded::Found {
            rest,
            ..
        } ==> rest.len() < s.len(),
{
    let d = name_map_entry_decoder(inner_bound);
    assert forall|t: Seq<u8>, i: u32|
        (#[trigger] d(t, i)) matches Decoded::Found { rest, .. } ==> rest.len() <= t.len() by {
        lemma_dec_name_map_shrinks(t, inner_bound);
    }
    lemma_dec_map_shrinks(s, bound, d);
}

/// Decode the subsection stream: read a tag and a size; a known,
/// not-yet-seen tag is decoded as its subsection (whose body must span
/// exactly the declared size), a known repeated tag is an error, and an
/// unknown tag is skipped by its declared size, which must not pass the
/// end. An exhausted stream is the expected terminal condition.
pub open spec fn dec_name_section(
    s: Seq<u8>,
    fspace: nat,
    lspace: nat,
    m: Option<Seq<char>>,
    f: Option<Seq<(u32, Seq<char>)>>,
    l: Option<Seq<(u32, Seq<(u32, Seq<char>)>)>>,
) -> Decoded<NameSectionView>
    decreases s.len(),
    via dec_name_section_decreases
{
    if s.len() == 0 {
        Decoded::Found { value: NameSectionView { module: m, functions: f, locals: l }, rest: s }
    } else {
        let tag = s[0];
        match dec_varuint32(s.skip(1)) {
            Decoded::Found { value: size, rest: s1 } => {
                if tag == NAME_TYPE_MODULE {
                    if m is Some {
                        Decoded::Fail { err: Error::InvalidData }
                    } else {
                        match dec_string(s1) {
                            Decoded::Found { value: nm, rest: s2 } => {
                                if s2.len() + size == s1.len() {
                                    dec_name_section(s2, fspace, lspace, Some(nm), f, l)
                                } else {
                                    Decoded::Fail { err: Error::InvalidData }
                                }
                            },
                            Decoded::Fail { err } => Decoded::Fail { err },
                        }
                    }
                } else if tag == NAME_TYPE_FUNCTION {
                    if f is Some {
                        Decoded::Fail { err: Error::InvalidData }
                    } else {
                        match dec_map(s1, fspace, string_entry_decoder()) {
                            Decoded::Found { value: fm, rest: s2 } => {
                                if s2.len() + size == s1.len() {
                                    dec_name_section(s2, fspace, lspace, m, Some(fm), l)
                                } else {
                                    Decoded::Fail { err: Error::InvalidData }
                                }
                            },
                            Decoded::Fail { err } => Decoded::Fail { err },
                        }
                    }
                } else if tag == NAME_TYPE_LOCAL {
                    if l is Some {
                        Decoded::Fail { err: Error::InvalidData }
                    } else {
                        match dec_map(s1, fspace, name_map_entry_decoder(lspace)) {
                            Decoded::Found { value: lm, rest: s2 } => {
                                if s2.len() + size == s1.len() {
                                    dec_name_section(s2, fspace, lspace, m, f, Some(lm))
                                } else {
                                    Decoded::Fail { err: Error::InvalidData }
                                }
                            },
                            Decoded::Fail { err } => Decoded::Fail { err },
                        }
                    }
                } else {
                    if s1.len() < size as nat {
                        Decoded::Fail { err: Error::UnexpectedEof }
                    } else {
                        dec_name_section(s1.skip(size as int), fspace, lspace, m, f, l)
                    }
                }
            },
            Decoded::Fail { err } => Decoded::Fail { err },
        }
    }
}

#[via_fn]
proof fn dec_name_section_decreases(
    s: Seq<u8>,
    fspace: nat,
    lspace: nat,
    m: Option<Seq<char>>,
    f: Option<Seq<(u32, Seq<char>)>>,
    l: Option<Seq<(u32, Seq<(u32, Seq<char>)>)>>,
) {
    if s.len() > 0 {
        lemma_dec_varuint_shrinks(s.skip(1), 5);
        match dec_varuint32(s.skip(1)) {
            Decoded::Found { value: size, rest: s1 } => {
                lemma_dec_string_shrinks(s1);
                lemma_dec_name_map_shrinks(s1, fspace);
                lemma_dec_local_map_shrinks(s1, fspace, lspace);
            },
            Decoded::Fail { .. } => {},
        }
    }
}

/// Write one framed subsection: its tag, its payload's byte length,
/// then the payload.
fn write_subsection<W: Write>(wtr: &mut W, tag: u8, payload: &Vec<u8>) -> (r: Result<(), Error>)
    ensures
        final(wtr).infallible() == old(wtr).infallible(),
        r is Ok ==> final(wtr).sink() == old(wtr).sink() + enc_subsection(tag, payload@),
        old(wtr).infallible() ==> (r is Ok <==> payload@.len() <= u32::MAX),
        old(wtr).infallible() && r is Err ==> r == Err::<(), Error>(Error::InvalidData),
{
    if payload.len() > u32::MAX as usize {
        return Err(Error::InvalidData);
    }
    let ghost sink0 = wtr.sink();
    let mut tag_buf: Vec<u8> = Vec::new();
    tag_buf.push(tag);
    match wtr.write(tag_buf.as_slice()) {
        Ok(_) => {},
        Err(e) => {
            return Err(e);
        },
    }
    let size = VarUint32(payload.len() as u32);
    match size.serialize(wtr) {
        Ok(_) => {},
        Err(e) => {
            return Err(e);
        },
    }
    match wtr.write(payload.as_slice()) {
        Ok(_) => {},
        Err(e) => {
            return Err(e);
        },
    }
    proof {
        assert(tag_buf@ =~= seq![tag]);
        assert(wtr.sink() =~= sink0 + enc_subsection(tag, payload@));
    }
    Ok(())
}

impl NameSection {
    /// Create a new name section from its subsections.
    pub fn new(
        module: Option<ModuleNameSubsection>,
        functions: Option<FunctionNameSubsection>,
        locals: Option<LocalNameSubsection>,
    ) -> (r: NameSection)
        ensures
            r.module == module,
            r.functions == functions,
            r.locals == locals,
    {
        NameSection { module, functions, locals }
    }

    /// Well-formedness: every map held by a subsection keeps its keys
    /// strictly ascending.
    pub open spec fn wf(&self) -> bool {
        &&& (self.functions matches Some(f) ==> f.names.wf())
        &&& (self.locals matches Some(l) ==> l.local_names.wf() && inner_maps_wf(l.local_names))
    }

    /// Module name subsection of this section.
    pub fn module(&self) -> (r: Option<&ModuleNameSubsection>)
        ensures
            match r {
                Some(m) => self.module == Some(*m),
                None => self.module is None,
            },
    {
        self.module.as_ref()
    }

    /// Module name subsection of this section (mutable).
    pub fn module_mut(&mut self) -> (r: &mut Option<ModuleNameSubsection>)
        ensures
            *r == old(self).module,
            final(self).module == *final(r),
            final(self).functions == old(self).functions,
            final(self).locals == old(self).locals,
    {
        &mut self.module
    }

    /// Functions name subsection of this section.
    pub fn functions(&self) -> (r: Option<&FunctionNameSubsection>)
        ensures
            match r {
                Some(f) => self.functions == Some(*f),
                None => self.functions is None,
            },
    {
        self.functions.as_ref()
    }

    /// Functions name subsection of this section (mutable).
    pub fn functions_mut(&mut self) -> (r: &mut Option<FunctionNameSubsection>)
        ensures
            *r == old(self).functions,
            final(self).functions == *final(r),
            final(self).module == old(self).module,
            final(self).locals == old(self).locals,
    {
        &mut self.functions
    }

    /// Local name subsection of this section.
    pub fn locals(&self) -> (r: Option<&LocalNameSubsection>)
        ensures
            match r {
                Some(l) => self.locals == Some(*l),
                None => self.locals is None,
            },
    {
        self.locals.as_ref()
    }

    /// Local name subsection of this section (mutable).
    pub fn locals_mut(&mut self) -> (r: &mut Option<LocalNameSubsection>)
        ensures
            *r == old(self).locals,
            final(self).locals == *final(r),
            final(self).module == old(self).module,
            final(self).functions == old(self).functions,
    {
        &mut self.locals
    }

    /// Write each present subsection in its frame, in the fixed order
    /// module name, function names, local names.
    pub fn serialize<W: Write>(&self, wtr: &mut W) -> (r: Result<(), Error>)
        ensures
            final(wtr).infallible() == old(wtr).infallible(),
            r is Ok ==> final(wtr).sink() == old(wtr).sink() + enc_name_section(self@),
            old(wtr).infallible() ==> (r is Ok <==> ns_fits(self@)),
            old(wtr).infallible() && r is Err ==> r == Err::<(), Error>(Error::InvalidData),
    {
        let ghost sink0 = wtr.sink();
        let ghost em: Seq<u8> = match self@.module {
            Some(nm) => enc_subsection(NAME_TYPE_MODULE, enc_string(nm)),
            None => Seq::empty(),
        };
        let ghost ef: Seq<u8> = match self@.functions {
            Some(f) => enc_subsection(NAME_TYPE_FUNCTION, enc_map(f, string_entry_encoder())),
            None => Seq::empty(),
        };
        let ghost el: Seq<u8> = match self@.locals {
            Some(l) => enc_subsection(NAME_TYPE_LOCAL, enc_map(l, name_map_entry_encoder())),
            None => Seq::empty(),
        };
        match &self.module {
            Some(subsection) => {
                let mut buffer: Vec<u8> = Vec::new();
                match subsection.serialize(&mut buffer) {
                    Ok(_) => {},
                    Err(e) => {
                        return Err(e);
                    },
                }
                match write_subsection(wtr, NAME_TYPE_MODULE, &buffer) {
                    Ok(_) => {},
                    Err(e) => {
                        return Err(e);
                    },
                }
            },
            None => {},
        }
        match &self.functions {
            Some(subsection) => {
                let mut buffer: Vec<u8> = Vec::new();
                match subsection.serialize(&mut buffer) {
                    Ok(_) => {},
                    Err(e) => {
                        return Err(e);
                    },
                }
                match write_subsection(wtr, NAME_TYPE_FUNCTION, &buffer) {
                    Ok(_) => {},
                    Err(e) => {
                        return Err(e);
                    },
                }
            },
            None => {},
        }
        match &self.locals {
            Some(subsection) => {
                let mut buffer: Vec<u8> = Vec::new();
                match subsection.serialize(&mut buffer) {
                    Ok(_) => {},
                    Err(e) => {
                        return Err(e);
                    },
                }
                match write_subsection(wtr, NAME_TYPE_LOCAL, &buffer) {
                    Ok(_) => {},
                    Err(e) => {
                        return Err(e);
                    },
                }
            },
            None => {},
        }
        proof {
            assert(wtr.sink() =~= sink0 + enc_name_section(self@));
        }
        Ok(())
    }

    /// Deserialize a name section, validating every index against the
    /// already-parsed module. The stream is read to its end: running
    /// out of subsections is the expected terminal condition.
    pub fn deserialize<R: Read + Seek>(module: &Module, rdr: &mut R) -> (r: Result<
        NameSection,
        Error,
    >)
        ensures
            preserves_reader(old(rdr), final(rdr)),
            r matches Ok(ns) ==> ns.wf(),
            old(rdr).reliable() ==> match r {
                Ok(ns) => dec_name_section(
                    readable(old(rdr)),
                    spec_functions_space(*module),
                    spec_local_space(*module),
                    None,
                    None,
                    None,
                ) == (Decoded::Found { value: ns@, rest: Seq::<u8>::empty() }),
                Err(e) => dec_name_section(
                    readable(old(rdr)),
                    spec_functions_space(*module),
                    spec_local_space(*module),
                    None,
                    None,
                    None,
                ) == (Decoded::Fail::<NameSectionView> { err: e }),
            },
    {
        let ghost fspace = spec_functions_space(*module);
        let ghost lspace = spec_local_space(*module);
        let ghost orig = readable(old(rdr));
        let mut module_name: Option<ModuleNameSubsection> = None;
        let mut function_names: Option<FunctionNameSubsection> = None;
        let mut local_names: Option<LocalNameSubsection> = None;
        loop
            invariant
                preserves_reader(old(rdr), rdr),
                orig == readable(old(rdr)),
                fspace == spec_functions_space(*module),
                lspace == spec_local_space(*module),
                function_names matches Some(f) ==> f.names.wf(),
                local_names matches Some(l) ==> l.local_names.wf() && inner_maps_wf(
                    l.local_names,
                ),
                dec_name_section(orig, fspace, lspace, None, None, None) == dec_name_section(
                    readable(rdr),
                    fspace,
                    lspace,
                    opt_module_view(module_name),
                    opt_functions_view(function_names),
                    opt_locals_view(local_names),
                ),
            decreases readable(rdr).len(),
        {
            let ghost s_iter = readable(rdr);
            let ghost m_v: Option<Seq<char>> = opt_module_view(module_name);
            let ghost f_v: Option<Seq<(u32, Seq<char>)>> = opt_functions_view(function_names);
            let ghost l_v: Option<Seq<(u32, Seq<(u32, Seq<char>)>)>> = opt_locals_view(
                local_names,
            );
            let tag = match read_byte(rdr) {
                Ok(t) => t,
                Err(_) => {
                    let ns = NameSection {
                        module: module_name,
                        functions: function_names,
                        locals: local_names,
                    };
                    proof {
                        if old(rdr).reliable() {
                            assert(readable(rdr) =~= Seq::<u8>::empty());
                        }
                    }
                    return Ok(ns);
                },
            };
            let size = match VarUint32::deserialize(rdr) {
                Ok(s) => s,
                Err(e) => {
                    return Err(e);
                },
            };
            let ghost s1 = readable(rdr);
            proof {
                assert(s_iter[0] == tag);
                assert(s_iter.len() > 0);
                assert(dec_varuint32(s_iter.skip(1)) == (Decoded::Found {
                    value: size.0,
                    rest: s1,
                }));
                lemma_dec_varuint_shrinks(s_iter.skip(1), 5);
                assert(s1.len() < s_iter.len());
            }
            if tag == NAME_TYPE_MODULE {
                if module_name.is_some() {
                    return Err(Error::InvalidData);
                }
                let pos0 = match rdr.stream_position() {
                    Ok(p) => p,
                    Err(e) => {
                        return Err(e);
                    },
                };
                let sub = match ModuleNameSubsection::deserialize(rdr) {
                    Ok(s) => s,
                    Err(e) => {
                        return Err(e);
                    },
                };
                let pos1 = match rdr.stream_position() {
                    Ok(p) => p,
                    Err(e) => {
                        return Err(e);
                    },
                };
                proof {
                    lemma_dec_string_shrinks(s1);
                }
                if pos1 - pos0 != size.0 as u64 {
                    return Err(Error::InvalidData);
                }
                proof {
                    assert(dec_name_section(s_iter, fspace, lspace, m_v, f_v, l_v)
                        == dec_name_section(readable(rdr), fspace, lspace, Some(sub@), f_v, l_v));
                }
                module_name = Some(sub);
            } else if tag == NAME_TYPE_FUNCTION {
                if function_names.is_some() {
                    return Err(Error::InvalidData);
                }
                let pos0 = match rdr.stream_position() {
                    Ok(p) => p,
                    Err(e) => {
                        return Err(e);
                    },
                };
                let sub = match FunctionNameSubsection::deserialize(module, rdr) {
                    Ok(s) => s,
                    Err(e) => {
                        return Err(e);
                    },
                };
                let pos1 = match rdr.stream_position() {
                    Ok(p) => p,
                    Err(e) => {
                        return Err(e);
                    },
                };
                proof {
                    lemma_dec_name_map_shrinks(s1, fspace);
                }
                if pos1 - pos0 != size.0 as u64 {
                    return Err(Error::InvalidData);
                }
                proof {
                    assert(dec_name_section(s_iter, fspace, lspace, m_v, f_v, l_v)
                        == dec_name_section(readable(rdr), fspace, lspace, m_v, Some(sub@), l_v));
                }
                function_names = Some(sub);
            } else if tag == NAME_TYPE_LOCAL {
                if local_names.is_some() {
                    return Err(Error::InvalidData);
                }
                let pos0 = match rdr.stream_position() {
                    Ok(p) => p,
                    Err(e) => {
                        return Err(e);
                    },
                };
                let sub = match LocalNameSubsection::deserialize(module, rdr) {
                    Ok(s) => s,
                    Err(e) => {
                        return Err(e);
                    },
                };
                let pos1 = match rdr.stream_position() {
                    Ok(p) => p,
                    Err(e) => {
                        return Err(e);
                    },
                };
                proof {
                    lemma_dec_local_map_shrinks(s1, fspace, lspace);
                }
                if pos1 - pos0 != size.0 as u64 {
                    return Err(Error::InvalidData);
                }
                proof {
                    assert(dec_name_section(s_iter, fspace, lspace, m_v, f_v, l_v)
                        == dec_name_section(readable(rdr), fspace, lspace, m_v, f_v, Some(sub@)));
                }
                local_names = Some(sub);
            } else {
                let total = match rdr.stream_len() {
                    Ok(l) => l,
                    Err(e) => {
                        return Err(e);
                    },
                };
                match rdr.seek_relative(size.0 as i64) {
                    Ok(_) => {},
                    Err(_) => {
                        return Err(Error::UnexpectedEof);
                    },
                }
                let pos = match rdr.stream_position() {
                    Ok(p) => p,
                    Err(e) => {
                        return Err(e);
                    },
                };
                if pos > total {
                    return Err(Error::UnexpectedEof);
                }
                proof {
                    assert(readable(rdr) =~= s1.skip(size.0 as int));
                    assert(dec_name_section(s_iter, fspace, lspace, m_v, f_v, l_v)
                        == dec_name_section(readable(rdr), fspace, lspace, m_v, f_v, l_v));
                }
            }
        }
    }
}

} // verus!
