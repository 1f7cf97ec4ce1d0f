//! Data preparation for the code generators: output stems from input
//! paths, getter names, validation of JSON inputs, YAML-to-JSON
//! conversion, and hexadecimal rendering of binary data.  The generators'
//! templates are rendered by the unverified shell from the data prepared
//! here; entries are handed over in input order.
use vstd::prelude::*;

use crate::lit::{DOT, SLASH, UNDERSCORE};
use crate::text::{is_digit, lex_lt, subvec};

verus! {

/// What can go wrong preparing generator data: an input path without a
/// usable stem, or an input document that does not parse.
#[derive(Clone, Copy, Debug, PartialEq, Eq, Structural)]
pub enum CompileError {
    MissingStem,
    InvalidData,
}

/// Last index holding byte `c`, or -1 when there is none.
pub open spec fn rfind_byte(s: Seq<u8>, c: u8) -> int
    decreases s.len(),
{
    if s.len() == 0 {
        -1
    } else if s.last() == c {
        s.len() - 1
    } else {
        rfind_byte(s.drop_last(), c)
    }
}

pub proof fn lemma_rfind_byte_inv(s: Seq<u8>, c: u8, k: int)
    requires
        -1 <= k < s.len(),
        k >= 0 ==> s[k] == c,
        forall|j: int| k < j < s.len() ==> s[j] != c,
    ensures
        rfind_byte(s, c) == k,
    decreases s.len(),
{
    if s.len() > 0 && s.last() != c {
        assert(k < s.len() - 1);
        assert(forall|j: int| k < j < s.len() - 1 ==> s.drop_last()[j] != c);
        lemma_rfind_byte_inv(s.drop_last(), c, k);
    }
}

pub fn exec_rfind_byte(s: &[u8], c: u8) -> (r: Option<usize>)
    ensures
        match r {
            Some(k) => rfind_byte(s@, c) == k as int && k < s@.len(),
            None => rfind_byte(s@, c) == -1,
        },
{
    let mut i: usize = s.len();
    while i > 0
        invariant
            0 <= i <= s@.len(),
            forall|j: int| i <= j < s@.len() ==> s@[j] != c,
        decreases i,
    {
        i -= 1;
        if s[i] == c {
            proof {
                lemma_rfind_byte_inv(s@, c, i as int);
            }
            return Some(i);
        }
    }
    proof {
        lemma_rfind_byte_inv(s@, c, -1);
    }
    None
}

/// The path's file name: everything after the last slash.
pub open spec fn spec_file_name(s: Seq<u8>) -> Seq<u8> {
    s.subrange(rfind_byte(s, SLASH) + 1, s.len() as int)
}

/// The file name without its extension; a name whose only dot leads it (a
/// hidden file) or that has no dot is kept whole.
pub open spec fn spec_stem(s: Seq<u8>) -> Seq<u8> {
    let n = spec_file_name(s);
    let d = rfind_byte(n, DOT);
    if d <= 0 {
        n
    } else {
        n.subrange(0, d)
    }
}

/// The getter name a file contributes: its file name with every dot
/// turned into an underscore.
pub open spec fn spec_getter(s: Seq<u8>) -> Seq<u8> {
    spec_file_name(s).map_values(
        |b: u8|
            if b == DOT {
                UNDERSCORE
            } else {
                b
            },
    )
}

pub fn exec_file_name(s: &[u8]) -> (r: Vec<u8>)
    ensures
        r@ == spec_file_name(s@),
{
    match exec_rfind_byte(s, SLASH) {
        Some(k) => {
            let n = s.len();
            subvec(s, k + 1, n)
        },
        None => subvec(s, 0, s.len()),
    }
}

pub fn exec_stem(s: &[u8]) -> (r: Vec<u8>)
    ensures
        r@ == spec_stem(s@),
{
    let n = exec_file_name(s);
    match exec_rfind_byte(n.as_slice(), DOT) {
        Some(d) => {
            if d == 0 {
                n
            } else {
                subvec(n.as_slice(), 0, d)
            }
        },
        None => n,
    }
}

pub fn exec_getter(s: &[u8]) -> (r: Vec<u8>)
    ensures
        r@ == spec_getter(s@),
{
    let n = exec_file_name(s);
    let mut out: Vec<u8> = Vec::new();
    let mut i: usize = 0;
    while i < n.len()
        invariant
            0 <= i <= n@.len(),
            n@ == spec_file_name(s@),
            out@.len() == i,
            forall|j: int|
                0 <= j < i ==> out@[j] == (if n@[j] == DOT {
                    UNDERSCORE
                } else {
                    n@[j]
                }),
        decreases n.len() - i,
    {
        let b = n[i];
        if b == DOT {
            out.push(UNDERSCORE);
        } else {
            out.push(b);
        }
        i += 1;
    }
    proof {
        assert(out@ =~= spec_getter(s@));
    }
    out
}

/// Stems joined by underscores, in input order.
pub open spec fn join_us(stems: Seq<Seq<u8>>) -> Seq<u8>
    decreases stems.len(),
{
    if stems.len() == 0 {
        Seq::empty()
    } else if stems.len() == 1 {
        stems[0]
    } else {
        stems[0] + seq![UNDERSCORE] + join_us(stems.drop_first())
    }
}

proof fn lemma_join_us_push(stems: Seq<Seq<u8>>, x: Seq<u8>)
    ensures
        join_us(stems.push(x)) == if stems.len() == 0 {
            x
        } else {
            join_us(stems) + seq![UNDERSCORE] + x
        },
    decreases stems.len(),
{
    if stems.len() == 0 {
        assert(stems.push(x)[0] == x);
        assert(join_us(stems.push(x)) == x);
    } else {
        assert(stems.push(x).drop_first() =~= stems.drop_first().push(x));
        lemma_join_us_push(stems.drop_first(), x);
        if stems.len() == 1 {
            assert(join_us(stems.push(x)) == stems[0] + seq![UNDERSCORE] + x);
        } else {
            assert(join_us(stems) + seq![UNDERSCORE] + x =~= stems[0] + seq![UNDERSCORE] + (
            join_us(stems.drop_first()) + seq![UNDERSCORE] + x));
        }
    }
}

/// Whether every input path has a non-empty stem.
pub open spec fn stems_ok(files: Seq<Seq<u8>>) -> bool {
    forall|i: int| 0 <= i < files.len() ==> spec_stem(#[trigger] files[i]).len() > 0
}

/// The output stem: the explicitly chosen name, or the input stems joined
/// by underscores; an input without a usable stem is an error.
pub open spec fn spec_output_stem(files: Seq<Seq<u8>>, name: Option<Seq<u8>>) -> Option<Seq<u8>> {
    match name {
        Some(n) => Some(n),
        None => if stems_ok(files) {
            Some(join_us(files.map_values(|f: Seq<u8>| spec_stem(f))))
        } else {
            None
        },
    }
}

pub fn output_stem(files: &Vec<Vec<u8>>, output_name: &Option<Vec<u8>>) -> (r: Result<
    Vec<u8>,
    CompileError,
>)
    ensures
        match spec_output_stem(
            files.deep_view(),
            match output_name {
                Some(n) => Some(n@),
                None => None,
            },
        ) {
            Some(st) => r matches Ok(o) && o@ == st,
            None => r == Err::<Vec<u8>, CompileError>(CompileError::MissingStem),
        },
{
    match output_name {
        Some(n) => {
            let r = subvec(n.as_slice(), 0, n.len());
            proof {
                assert(n@.subrange(0, n@.len() as int) =~= n@);
            }
            return Ok(r);
        },
        None => {},
    }
    let ghost fs = files.deep_view();
    proof {
        crate::export_header::lemma_vec_deep_view(files);
    }
    let mut out: Vec<u8> = Vec::new();
    let mut i: usize = 0;
    while i < files.len()
        invariant
            0 <= i <= files@.len(),
            output_name is None,
            fs == files.deep_view(),
            fs.len() == files@.len(),
            forall|k: int| 0 <= k < files@.len() ==> fs[k] == files@[k]@,
            forall|k: int| 0 <= k < i ==> spec_stem(#[trigger] fs[k]).len() > 0,
            out@ == join_us(fs.subrange(0, i as int).map_values(|f: Seq<u8>| spec_stem(f))),
        decreases files.len() - i,
    {
        let st = exec_stem(files[i].as_slice());
        if st.len() == 0 {
            proof {
                assert(spec_stem(fs[i as int]).len() == 0);
                assert(!stems_ok(fs));
                assert(fs == files.deep_view());
                assert(spec_output_stem(files.deep_view(), None) is None);
            }
            return Err(CompileError::MissingStem);
        }
        let ghost before = fs.subrange(0, i as int).map_values(|f: Seq<u8>| spec_stem(f));
        if i > 0 {
            out.push(UNDERSCORE);
        }
        out.extend_from_slice(st.as_slice());
        proof {
            let after = fs.subrange(0, i + 1).map_values(|f: Seq<u8>| spec_stem(f));
            assert(fs.subrange(0, i + 1) =~= fs.subrange(0, i as int).push(fs[i as int]));
            assert(after =~= before.push(spec_stem(fs[i as int])));
            lemma_join_us_push(before, spec_stem(fs[i as int]));
            if i == 0 {
                assert(before.len() == 0);
                assert(out@ =~= spec_stem(fs[i as int]));
            } else {
                assert(before.len() > 0);
                assert(out@ =~= join_us(before) + seq![UNDERSCORE] + spec_stem(fs[i as int]));
            }
        }
        i += 1;
    }
    proof {
        assert(fs.subrange(0, fs.len() as int) =~= fs);
    }
    Ok(out)
}

/// One hexadecimal digit, upper case.
pub open spec fn hex_digit(n: nat) -> u8 {
    if n < 10 {
        (48 + n) as u8
    } else {
        (55 + n) as u8
    }
}

/// One byte as `0x` and two upper-case hex digits.
pub open spec fn hex_of_byte(b: u8) -> Seq<u8> {
    seq![48u8, 120u8, hex_digit(b as nat / 16), hex_digit(b as nat % 16)]
}

/// All bytes rendered in hex, separated by a comma and a line break.
pub open spec fn hex_join(bytes: Seq<u8>) -> Seq<u8>
    decreases bytes.len(),
{
    if bytes.len() == 0 {
        Seq::empty()
    } else if bytes.len() == 1 {
        hex_of_byte(bytes[0])
    } else {
        hex_of_byte(bytes[0]) + seq![44u8, 10u8] + hex_join(bytes.drop_first())
    }
}

proof fn lemma_hex_join_push(bytes: Seq<u8>, x: u8)
    ensures
        hex_join(bytes.push(x)) == if bytes.len() == 0 {
            hex_of_byte(x)
        } else {
            hex_join(bytes) + seq![44u8, 10u8] + hex_of_byte(x)
        },
    decreases bytes.len(),
{
    if bytes.len() == 0 {
        assert(bytes.push(x)[0] == x);
    } else {
        assert(bytes.push(x).drop_first() =~= bytes.drop_first().push(x));
        lemma_hex_join_push(bytes.drop_first(), x);
        if bytes.len() == 1 {
        } else {
            assert(hex_join(bytes) + seq![44u8, 10u8] + hex_of_byte(x) =~= hex_of_byte(bytes[0])
                + seq![44u8, 10u8] + (hex_join(bytes.drop_first()) + seq![44u8, 10u8] + hex_of_byte(
                x,
            )));
        }
    }
}

/// Binary data rendered for embedding: `0xAB` per byte, comma-and-newline
/// separated, nothing for empty data.
pub struct HexBytes(pub Vec<u8>);

impl HexBytes {
    /// The textual hex rendering of the held bytes.
    pub fn to_hex_bytes(&self) -> (r: Vec<u8>)
        ensures
            r@ == hex_join(self.0@),
    {
        let mut out: Vec<u8> = Vec::new();
        let mut i: usize = 0;
        while i < self.0.len()
            invariant
                0 <= i <= self.0@.len(),
                out@ == hex_join(self.0@.subrange(0, i as int)),
            decreases self.0.len() - i,
        {
            let b = self.0[i];
            let ghost before = self.0@.subrange(0, i as int);
            if i > 0 {
                out.push(44);
                out.push(10);
            }
            out.push(48);
            out.push(120);
            let hi = b / 16;
            let lo = b % 16;
            out.push(if hi < 10 {
                48 + hi
            } else {
                55 + hi
            });
            out.push(if lo < 10 {
                48 + lo
            } else {
                55 + lo
            });
            proof {
                assert(self.0@.subrange(0, i + 1) =~= before.push(self.0@[i as int]));
                lemma_hex_join_push(before, self.0@[i as int]);
                if i == 0 {
                    assert(out@ =~= hex_of_byte(self.0@[0]));
                } else {
                    assert(out@ =~= hex_join(before) + seq![44u8, 10u8] + hex_of_byte(
                        self.0@[i as int],
                    ));
                }
            }
            i += 1;
        }
        proof {
            assert(self.0@.subrange(0, self.0@.len() as int) =~= self.0@);
        }
        out
    }
}

/// Whether the bytes parse as one JSON document.  The outside parser
/// decides this from the bytes alone.
pub uninterp spec fn json_document_ok(s: Seq<u8>) -> bool;

/// Relies on serde_json::from_slice: whether the input is well-formed
/// JSON, which is what `json_document_ok` names.
#[verifier::external_body]
fn json_validate(content: &[u8]) -> (r: bool)
    ensures
        r == json_document_ok(content@),
{
    serde_json::from_slice::<serde_json::Value>(content).is_ok()
}

/// The JSON rendering of the YAML document `s`, if `s` parses.  The two
/// outside serializers compute this from the bytes alone; the YAML
/// mapping keeps its insertion order, so the result is a function of the
/// input.
pub uninterp spec fn json_of_yaml(s: Seq<u8>) -> Option<Seq<u8>>;

/// Relies on serde_norway::from_slice and serde_json::to_string: parse the
/// YAML document and render the same tree as JSON, which is what
/// `json_of_yaml` names.
#[verifier::external_body]
fn yaml_to_json(content: &[u8]) -> (r: Option<Vec<u8>>)
    ensures
        r matches Some(j) ==> json_of_yaml(content@) == Some(j@),
        r is None ==> json_of_yaml(content@) is None,
{
    let value: serde_norway::Value = match serde_norway::from_slice(content) {
        Ok(v) => v,
        Err(_) => return None,
    };
    match serde_json::to_string(&value) {
        Ok(s) => Some(s.into_bytes()),
        Err(_) => None,
    }
}

/// A deep copy of a list of byte strings.
fn copy_all(xs: &Vec<Vec<u8>>) -> (r: Vec<Vec<u8>>)
    ensures
        r@.len() == xs@.len(),
        forall|i: int| 0 <= i < xs@.len() ==> r@[i]@ == xs@[i]@,
{
    let mut r: Vec<Vec<u8>> = Vec::new();
    let mut i: usize = 0;
    while i < xs.len()
        invariant
            0 <= i <= xs@.len(),
            r@.len() == i,
            forall|k: int| 0 <= k < i ==> r@[k]@ == xs@[k]@,
        decreases xs.len() - i,
    {
        r.push(subvec(xs[i].as_slice(), 0, xs[i].len()));
        proof {
            assert(r@[i as int]@ =~= xs@[i as int]@);
        }
        i += 1;
    }
    r
}

/// The getter names of a list of paths, in input order.
fn map_getters(files: &Vec<Vec<u8>>) -> (r: Vec<Vec<u8>>)
    ensures
        r@.len() == files@.len(),
        forall|i: int| 0 <= i < files@.len() ==> r@[i]@ == spec_getter(files@[i]@),
{
    let mut r: Vec<Vec<u8>> = Vec::new();
    let mut i: usize = 0;
    while i < files.len()
        invariant
            0 <= i <= files@.len(),
            r@.len() == i,
            forall|k: int| 0 <= k < i ==> r@[k]@ == spec_getter(files@[k]@),
        decreases files.len() - i,
    {
        r.push(exec_getter(files[i].as_slice()));
        i += 1;
    }
    r
}

/// The data handed to the JSON header template: input paths, one key and
/// one document per input, and the template knobs.
pub struct JsonHeaderData {
    pub files: Vec<Vec<u8>>,
    pub keys: Vec<Vec<u8>>,
    pub data: Vec<Vec<u8>>,
    pub namespace: String,
    pub output_stem: Vec<u8>,
    pub with_nlohmann: bool,
}

/// Compiles JSON documents into header data.
pub struct JsonCompiler {
    pub namespace: String,
    pub out_dir: String,
    pub with_nlohmann: bool,
}

impl JsonCompiler {
    pub fn new(namespace: String, out_dir: &str, with_nlohmann: bool) -> (r: Self)
        ensures
            r.namespace@ == namespace@,
            r.out_dir@ == out_dir@,
            r.with_nlohmann == with_nlohmann,
    {
        JsonCompiler { namespace, out_dir: out_dir.to_owned(), with_nlohmann }
    }

    /// The output stem of a set of inputs, as the shared rule computes it.
    pub fn output_stem(files: &Vec<Vec<u8>>, output_name: &Option<Vec<u8>>) -> (r: Result<
        Vec<u8>,
        CompileError,
    >)
        ensures
            match spec_output_stem(
                files.deep_view(),
                match output_name {
                    Some(n) => Some(n@),
                    None => None,
                },
            ) {
                Some(st) => r matches Ok(o) && o@ == st,
                None => r == Err::<Vec<u8>, CompileError>(CompileError::MissingStem),
            },
    {
        output_stem(files, output_name)
    }

    /// Prepare the template data: every input must be well-formed JSON and
    /// have a usable stem, which becomes its key; the documents are handed
    /// through verbatim, in input order.
    pub fn compile_internal(&self, files: &Vec<Vec<u8>>, contents: &Vec<Vec<u8>>, stem: &[u8]) -> (r:
        Result<JsonHeaderData, CompileError>)
        requires
            files@.len() == contents@.len(),
        ensures
            r matches Ok(d) ==> ({
                &&& forall|i: int|
                    0 <= i < contents@.len() ==> json_document_ok(#[trigger] contents@[i]@)
                &&& d.files@.len() == files@.len()
                &&& forall|i: int| 0 <= i < files@.len() ==> d.files@[i]@ == files@[i]@
                &&& d.keys@.len() == files@.len()
                &&& forall|i: int|
                    0 <= i < files@.len() ==> d.keys@[i]@ == spec_stem(#[trigger] files@[i]@)
                &&& d.data@.len() == contents@.len()
                &&& forall|i: int| 0 <= i < contents@.len() ==> d.data@[i]@ == contents@[i]@
                &&& d.namespace@ == self.namespace@
                &&& d.output_stem@ == stem@
                &&& d.with_nlohmann == self.with_nlohmann
            }),
            r == Err::<JsonHeaderData, CompileError>(CompileError::InvalidData) ==> (exists|i: int|
                0 <= i < contents@.len() && !json_document_ok(#[trigger] contents@[i]@)),
            r == Err::<JsonHeaderData, CompileError>(CompileError::MissingStem) ==> (exists|i: int|
                0 <= i < files@.len() && spec_stem(#[trigger] files@[i]@).len() == 0),
            r is Err ==> (exists|i: int|
                0 <= i < contents@.len() && !json_document_ok(#[trigger] contents@[i]@)) || (
            exists|i: int| 0 <= i < files@.len() && spec_stem(#[trigger] files@[i]@).len() == 0),
    {
        let mut keys: Vec<Vec<u8>> = Vec::new();
        let mut i: usize = 0;
        while i < files.len()
            invariant
                0 <= i <= files@.len(),
                files@.len() == contents@.len(),
                keys@.len() == i,
                forall|k: int| 0 <= k < i ==> keys@[k]@ == spec_stem(#[trigger] files@[k]@),
                forall|k: int| 0 <= k < i ==> json_document_ok(#[trigger] contents@[k]@),
            decreases files.len() - i,
        {
            if !json_validate(contents[i].as_slice()) {
                return Err(CompileError::InvalidData);
            }
            let st = exec_stem(files[i].as_slice());
            if st.len() == 0 {
                return Err(CompileError::MissingStem);
            }
            keys.push(st);
            i += 1;
        }
        let out_stem = subvec(stem, 0, stem.len());
        proof {
            assert(stem@.subrange(0, stem@.len() as int) =~= stem@);
        }
        Ok(
            JsonHeaderData {
                files: copy_all(files),
                keys,
                data: copy_all(contents),
                namespace: self.namespace.clone(),
                output_stem: out_stem,
                with_nlohmann: self.with_nlohmann,
            },
        )
    }
}

/// Compiles YAML documents into the same header data, converting each
/// document to JSON first.
pub struct YamlCompiler {
    pub namespace: String,
    pub out_dir: String,
    pub with_nlohmann: bool,
}

impl YamlCompiler {
    pub fn new(namespace: String, out_dir: &str, with_nlohmann: bool) -> (r: Self)
        ensures
            r.namespace@ == namespace@,
            r.out_dir@ == out_dir@,
            r.with_nlohmann == with_nlohmann,
    {
        YamlCompiler { namespace, out_dir: out_dir.to_owned(), with_nlohmann }
    }

    /// Prepare the template data: every input must parse as YAML and have a
    /// usable stem; each document is carried as its JSON rendering, in
    /// input order.
    pub fn compile_internal(&self, files: &Vec<Vec<u8>>, contents: &Vec<Vec<u8>>, stem: &[u8]) -> (r:
        Result<JsonHeaderData, CompileError>)
        requires
            files@.len() == contents@.len(),
        ensures
            r matches Ok(d) ==> ({
                &&& forall|i: int|
                    0 <= i < contents@.len() ==> json_of_yaml(#[trigger] contents@[i]@) is Some
                &&& d.files@.len() == files@.len()
                &&& forall|i: int| 0 <= i < files@.len() ==> d.files@[i]@ == files@[i]@
                &&& d.keys@.len() == files@.len()
                &&& forall|i: int|
                    0 <= i < files@.len() ==> d.keys@[i]@ == spec_stem(#[trigger] files@[i]@)
                &&& d.data@.len() == contents@.len()
                &&& forall|i: int|
                    0 <= i < contents@.len() ==> json_of_yaml(#[trigger] contents@[i]@) == Some(
                        d.data@[i]@,
                    )
                &&& d.namespace@ == self.namespace@
                &&& d.output_stem@ == stem@
                &&& d.with_nlohmann == self.with_nlohmann
            }),
            r == Err::<JsonHeaderData, CompileError>(CompileError::InvalidData) ==> (exists|i: int|
                0 <= i < contents@.len() && json_of_yaml(#[trigger] contents@[i]@) is None),
            r == Err::<JsonHeaderData, CompileError>(CompileError::MissingStem) ==> (exists|i: int|
                0 <= i < files@.len() && spec_stem(#[trigger] files@[i]@).len() == 0),
    {
        let mut keys: Vec<Vec<u8>> = Vec::new();
        let mut data: Vec<Vec<u8>> = Vec::new();
        let mut i: usize = 0;
        while i < files.len()
            invariant
                0 <= i <= files@.len(),
                files@.len() == contents@.len(),
                keys@.len() == i,
                data@.len() == i,
                forall|k: int| 0 <= k < i ==> keys@[k]@ == spec_stem(#[trigger] files@[k]@),
                forall|k: int|
                    0 <= k < i ==> json_of_yaml(#[trigger] contents@[k]@) == Some(data@[k]@),
            decreases files.len() - i,
        {
            let json = match yaml_to_json(contents[i].as_slice()) {
                Some(j) => j,
                None => {
                    return Err(CompileError::InvalidData);
                },
            };
            let st = exec_stem(files[i].as_slice());
            if st.len() == 0 {
                return Err(CompileError::MissingStem);
            }
            keys.push(st);
            data.push(json);
            i += 1;
        }
        let out_stem = subvec(stem, 0, stem.len());
        proof {
            assert(stem@.subrange(0, stem@.len() as int) =~= stem@);
        }
        Ok(
            JsonHeaderData {
                files: copy_all(files),
                keys,
                data,
                namespace: self.namespace.clone(),
                output_stem: out_stem,
                with_nlohmann: self.with_nlohmann,
            },
        )
    }
}

/// The data handed to the resource templates: the combined file list, the
/// getter names, and the text and binary payloads keyed by getter name,
/// binary data rendered in hex with its length alongside.
pub struct EmbedData {
    pub files: Vec<Vec<u8>>,
    pub text_getters: Vec<Vec<u8>>,
    pub binary_getters: Vec<Vec<u8>>,
    pub text_data: Vec<Vec<u8>>,
    pub binary_lens: Vec<usize>,
    pub binary_hex: Vec<Vec<u8>>,
    pub namespace: String,
    pub output_stem: Vec<u8>,
}

/// Compiles text and binary resources into header and source data.
pub struct EmbedCompiler {
    pub namespace: String,
    pub out_dir: String,
}

impl EmbedCompiler {
    pub fn new(namespace: String, out_dir: &str) -> (r: Self)
        ensures
            r.namespace@ == namespace@,
            r.out_dir@ == out_dir@,
    {
        EmbedCompiler { namespace, out_dir: out_dir.to_owned() }
    }

    /// Prepare the template data: the file list is the text paths followed
    /// by the binary paths; each file contributes its getter name; text
    /// payloads are carried verbatim and binary payloads as their length
    /// and hex rendering, in input order.
    pub fn compile_internal(
        &self,
        text_files: &Vec<Vec<u8>>,
        text_contents: &Vec<Vec<u8>>,
        binary_files: &Vec<Vec<u8>>,
        binary_contents: &Vec<Vec<u8>>,
        stem: &[u8],
    ) -> (r: EmbedData)
        requires
            text_files@.len() == text_contents@.len(),
            binary_files@.len() == binary_contents@.len(),
        ensures
            r.files@.len() == text_files@.len() + binary_files@.len(),
            forall|i: int| 0 <= i < text_files@.len() ==> r.files@[i]@ == text_files@[i]@,
            forall|i: int|
                0 <= i < binary_files@.len() ==> r.files@[text_files@.len() + i]@
                    == binary_files@[i]@,
            r.text_getters@.len() == text_files@.len(),
            forall|i: int|
                0 <= i < text_files@.len() ==> r.text_getters@[i]@ == spec_getter(
                    #[trigger] text_files@[i]@,
                ),
            r.binary_getters@.len() == binary_files@.len(),
            forall|i: int|
                0 <= i < binary_files@.len() ==> r.binary_getters@[i]@ == spec_getter(
                    #[trigger] binary_files@[i]@,
                ),
            r.text_data@.len() == text_contents@.len(),
            forall|i: int| 0 <= i < text_contents@.len() ==> r.text_data@[i]@ == text_contents@[i]@,
            r.binary_lens@.len() == binary_contents@.len(),
            forall|i: int|
                0 <= i < binary_contents@.len() ==> r.binary_lens@[i] == binary_contents@[i]@.len(),
            r.binary_hex@.len() == binary_contents@.len(),
            forall|i: int|
                0 <= i < binary_contents@.len() ==> r.binary_hex@[i]@ == hex_join(
                    #[trigger] binary_contents@[i]@,
                ),
            r.namespace@ == self.namespace@,
            r.output_stem@ == stem@,
    {
        let mut files: Vec<Vec<u8>> = copy_all(text_files);
        let mut more = copy_all(binary_files);
        let ghost nt = text_files@.len();
        let mut i: usize = 0;
        while i < more.len()
            invariant
                0 <= i <= more@.len(),
                more@.len() == binary_files@.len(),
                forall|k: int| 0 <= k < more@.len() ==> more@[k]@ == binary_files@[k]@,
                files@.len() == nt + i,
                forall|k: int| 0 <= k < nt ==> files@[k]@ == text_files@[k]@,
                forall|k: int| 0 <= k < i ==> files@[nt + k]@ == binary_files@[k]@,
            decreases more.len() - i,
        {
            let item = subvec(more[i].as_slice(), 0, more[i].len());
            proof {
                assert(item@ =~= binary_files@[i as int]@);
            }
            files.push(item);
            i += 1;
        }
        let mut binary_lens: Vec<usize> = Vec::new();
        let mut binary_hex: Vec<Vec<u8>> = Vec::new();
        let mut j: usize = 0;
        while j < binary_contents.len()
            invariant
                0 <= j <= binary_contents@.len(),
                binary_lens@.len() == j,
                binary_hex@.len() == j,
                forall|k: int| 0 <= k < j ==> binary_lens@[k] == binary_contents@[k]@.len(),
                forall|k: int|
                    0 <= k < j ==> binary_hex@[k]@ == hex_join(#[trigger] binary_contents@[k]@),
            decreases binary_contents.len() - j,
        {
            binary_lens.push(binary_contents[j].len());
            let hb = HexBytes(subvec(binary_contents[j].as_slice(), 0, binary_contents[j].len()));
            proof {
                assert(hb.0@ =~= binary_contents@[j as int]@);
            }
            binary_hex.push(hb.to_hex_bytes());
            j += 1;
        }
        let out_stem = subvec(stem, 0, stem.len());
        proof {
            assert(stem@.subrange(0, stem@.len() as int) =~= stem@);
        }
        EmbedData {
            files,
            text_getters: map_getters(text_files),
            binary_getters: map_getters(binary_files),
            text_data: copy_all(text_contents),
            binary_lens,
            binary_hex,
            namespace: self.namespace.clone(),
            output_stem: out_stem,
        }
    }
}

} // verus!
