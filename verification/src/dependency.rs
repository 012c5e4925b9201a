//! Linker dependency-info files: the `ld64` binary command stream and
//! the Makefile-style dependency listing, each with its serializer and
//! parser.  Walking a directory to gather inputs is the caller's I/O.

use vstd::prelude::*;

use vstd::string::StringSliceAdditionalSpecFns;
use vstd::utf8::{decode_utf8, encode_utf8, valid_utf8};

use crate::paths::spec_first_nul;
use crate::strutil::{str_chars, string_from_chars, utf8_lossy};

verus! {

/// The failure modes of reading dependency info.
#[derive(Debug, Clone, PartialEq, Eq)]
pub enum DependencyError {
    /// A binary command's string never reaches its NUL terminator.
    UnterminatedString,
    /// A binary command byte ends the buffer with no string after it.
    MissingString,
    /// A second version command was found.
    MultipleVersions,
    /// An unknown binary command byte; holds it.
    UnknownCommand(u8),
    /// A Makefile line breaks the `outputs: inputs` shape.
    InvalidMakefileSyntax,
    /// A Makefile rule names outputs but no `:`.
    OutputWithoutInputs,
    /// The path handed to the directory reader is not a directory.
    NotADirectory,
    /// An I/O failure, as text.
    Io(String),
    /// An unknown format name; holds it.
    UnknownFormat(String),
}

/// The three on-disk formats dependency info comes in.
#[derive(Debug, Clone, PartialEq, Eq, Structural)]
pub enum DependencyInfoFormat {
    Binary,
    Directory,
    Makefile,
}

/// The name of each format.
pub open spec fn spec_format_name(f: DependencyInfoFormat) -> Seq<char> {
    match f {
        DependencyInfoFormat::Binary => ("binary")@,
        DependencyInfoFormat::Directory => ("directory")@,
        DependencyInfoFormat::Makefile => ("makefile")@,
    }
}

/// The format a name denotes, if any.
pub open spec fn spec_parse_format(name: Seq<char>) -> Option<DependencyInfoFormat> {
    if name == ("binary")@ {
        Some(DependencyInfoFormat::Binary)
    } else if name == ("directory")@ {
        Some(DependencyInfoFormat::Directory)
    } else if name == ("makefile")@ {
        Some(DependencyInfoFormat::Makefile)
    } else {
        None
    }
}

impl DependencyInfoFormat {
    /// The canonical name of this format.
    pub fn name(&self) -> (r: &'static str)
        ensures
            r@ == spec_format_name(*self),
    {
        match self {
            DependencyInfoFormat::Binary => "binary",
            DependencyInfoFormat::Directory => "directory",
            DependencyInfoFormat::Makefile => "makefile",
        }
    }

    /// The format `name` denotes; an unknown name is reported verbatim.
    pub fn parse(name: &str) -> (r: Result<DependencyInfoFormat, DependencyError>)
        ensures
            match spec_parse_format(name@) {
                Some(f) => r == Ok::<DependencyInfoFormat, DependencyError>(f),
                None => (r matches Err(DependencyError::UnknownFormat(n)) && n@ == name@),
            },
    {
        if crate::strutil::str_eq(name, "binary") {
            Ok(DependencyInfoFormat::Binary)
        } else if crate::strutil::str_eq(name, "directory") {
            Ok(DependencyInfoFormat::Directory)
        } else if crate::strutil::str_eq(name, "makefile") {
            Ok(DependencyInfoFormat::Makefile)
        } else {
            Err(DependencyError::UnknownFormat(name.to_owned()))
        }
    }
}

/// The inputs and outputs one tool run depends on and produces.
#[derive(Debug, Clone)]
pub struct DependencyInfo {
    pub inputs: Vec<String>,
    pub outputs: Vec<String>,
}

impl Default for DependencyInfo {
    /// No inputs and no outputs.
    fn default() -> (r: DependencyInfo)
        ensures
            r.inputs@.len() == 0 && r.outputs@.len() == 0,
    {
        DependencyInfo { inputs: Vec::new(), outputs: Vec::new() }
    }
}

/// Dependency info read from the `ld64` binary command stream.
#[derive(Debug, Clone)]
pub struct BinaryDependencyInfo {
    pub version: String,
    pub missing: Vec<String>,
    pub dependency_info: DependencyInfo,
}

/// One binary command: the command byte, the string's UTF-8 bytes, a NUL.
pub open spec fn spec_cmd_bytes(c: u8, s: Seq<char>) -> Seq<u8> {
    seq![c] + encode_utf8(s) + seq![0u8]
}

/// The commands for a list of strings, in order.
pub open spec fn spec_cmd_list_bytes(c: u8, items: Seq<String>, i: int) -> Seq<u8>
    decreases items.len() - i,
{
    if i < 0 || i >= items.len() {
        Seq::empty()
    } else {
        spec_cmd_bytes(c, items[i]@) + spec_cmd_list_bytes(c, items, i + 1)
    }
}

/// The serialized form of binary dependency info: the version (when not
/// empty), the outputs, the inputs, then the missing files.
pub open spec fn spec_bin_serialize(b: BinaryDependencyInfo) -> Seq<u8> {
    (if b.version@.len() == 0 {
        Seq::empty()
    } else {
        spec_cmd_bytes(0x00, b.version@)
    }) + spec_cmd_list_bytes(0x40, b.dependency_info.outputs@, 0) + spec_cmd_list_bytes(
        0x10,
        b.dependency_info.inputs@,
        0,
    ) + spec_cmd_list_bytes(0x11, b.missing@, 0)
}

/// What parsing a binary stream accumulates: the version's bytes and the
/// three lists of string bytes.
pub ghost struct BinView {
    pub version: Seq<u8>,
    pub inputs: Seq<Seq<u8>>,
    pub outputs: Seq<Seq<u8>>,
    pub missing: Seq<Seq<u8>>,
}

/// Parse the command stream from `i` on: each command byte is followed
/// by a NUL-terminated string; `0x00` sets the version (once), `0x10`,
/// `0x40` and `0x11` append inputs, outputs and missing files.
pub open spec fn spec_parse_bin(bytes: Seq<u8>, i: int, acc: BinView) -> Result<
    BinView,
    DependencyError,
>
    decreases bytes.len() - i,
{
    if i < 0 || i >= bytes.len() {
        Ok(acc)
    } else {
        let command = bytes[i];
        if i + 1 >= bytes.len() {
            Err(DependencyError::MissingString)
        } else {
            let found = spec_first_nul(bytes, i + 1);
            let nul = if found < i + 1 {
                i + 1
            } else {
                found
            };
            if nul >= bytes.len() {
                Err(DependencyError::UnterminatedString)
            } else {
                let s = bytes.subrange(i + 1, nul);
                if command == 0x00 {
                    if acc.version.len() != 0 {
                        Err(DependencyError::MultipleVersions)
                    } else {
                        spec_parse_bin(bytes, nul + 1, BinView { version: s, ..acc })
                    }
                } else if command == 0x10 {
                    spec_parse_bin(bytes, nul + 1, BinView { inputs: acc.inputs + seq![s], ..acc })
                } else if command == 0x40 {
                    spec_parse_bin(
                        bytes,
                        nul + 1,
                        BinView { outputs: acc.outputs + seq![s], ..acc },
                    )
                } else if command == 0x11 {
                    spec_parse_bin(
                        bytes,
                        nul + 1,
                        BinView { missing: acc.missing + seq![s], ..acc },
                    )
                } else {
                    Err(DependencyError::UnknownCommand(command))
                }
            }
        }
    }
}

/// The empty accumulator parsing starts from.
pub open spec fn spec_bin_empty() -> BinView {
    BinView {
        version: Seq::empty(),
        inputs: Seq::empty(),
        outputs: Seq::empty(),
        missing: Seq::empty(),
    }
}

/// Whether a decoded string list matches the parsed byte strings: same
/// length, and each string the lossy decoding of its bytes.
pub open spec fn lossy_list_matches(strs: Seq<String>, raws: Seq<Seq<u8>>) -> bool {
    &&& strs.len() == raws.len()
    &&& forall|k: int|
        0 <= k < strs.len() ==> (#[trigger] strs[k])@ == crate::strutil::spec_utf8_lossy(raws[k])
}

impl BinaryDependencyInfo {
    /// Serialize to the `ld64` command stream.
    pub fn serialize(&self) -> (r: Vec<u8>)
        ensures
            r@ == spec_bin_serialize(*self),
    {
        let mut out: Vec<u8> = Vec::new();
        if !self.version.as_str().is_empty() {
            write_command(&mut out, 0x00, self.version.as_str());
        }
        proof {
            assert(out@ =~= (if self.version@.len() == 0 {
                Seq::<u8>::empty()
            } else {
                spec_cmd_bytes(0x00, self.version@)
            }));
        }

        let ghost base0 = out@;
        let mut i: usize = 0;
        while i < self.dependency_info.outputs.len()
            invariant
                i <= self.dependency_info.outputs@.len(),
                out@ + spec_cmd_list_bytes(0x40, self.dependency_info.outputs@, i as int) =~= base0
                    + spec_cmd_list_bytes(0x40, self.dependency_info.outputs@, 0),
            decreases self.dependency_info.outputs@.len() - i,
        {
            write_command(&mut out, 0x40, self.dependency_info.outputs[i].as_str());
            i = i + 1;
        }
        proof {
            assert(spec_cmd_list_bytes(
                0x40,
                self.dependency_info.outputs@,
                self.dependency_info.outputs@.len() as int,
            ) =~= Seq::<u8>::empty());
            assert(out@ =~= base0 + spec_cmd_list_bytes(0x40, self.dependency_info.outputs@, 0));
        }

        let ghost base1 = out@;
        let mut i: usize = 0;
        while i < self.dependency_info.inputs.len()
            invariant
                i <= self.dependency_info.inputs@.len(),
                out@ + spec_cmd_list_bytes(0x10, self.dependency_info.inputs@, i as int) =~= base1
                    + spec_cmd_list_bytes(0x10, self.dependency_info.inputs@, 0),
            decreases self.dependency_info.inputs@.len() - i,
        {
            write_command(&mut out, 0x10, self.dependency_info.inputs[i].as_str());
            i = i + 1;
        }
        proof {
            assert(spec_cmd_list_bytes(
                0x10,
                self.dependency_info.inputs@,
                self.dependency_info.inputs@.len() as int,
            ) =~= Seq::<u8>::empty());
            assert(out@ =~= base1 + spec_cmd_list_bytes(0x10, self.dependency_info.inputs@, 0));
        }

        let ghost base2 = out@;
        let mut i: usize = 0;
        while i < self.missing.len()
            invariant
                i <= self.missing@.len(),
                out@ + spec_cmd_list_bytes(0x11, self.missing@, i as int) =~= base2
                    + spec_cmd_list_bytes(0x11, self.missing@, 0),
            decreases self.missing@.len() - i,
        {
            write_command(&mut out, 0x11, self.missing[i].as_str());
            i = i + 1;
        }
        proof {
            assert(spec_cmd_list_bytes(0x11, self.missing@, self.missing@.len() as int) =~= Seq::<
                u8,
            >::empty());
            assert(out@ =~= base2 + spec_cmd_list_bytes(0x11, self.missing@, 0));
        }
        out
    }

    /// Parse an `ld64` command stream: exactly `spec_parse_bin`, with
    /// every string decoded (valid UTF-8 comes back verbatim).
    pub fn deserialize(contents: &[u8]) -> (r: Result<BinaryDependencyInfo, DependencyError>)
        ensures
            match spec_parse_bin(contents@, 0, spec_bin_empty()) {
                Ok(bv) => (r matches Ok(b) && {
                    &&& b.version@ == crate::strutil::spec_utf8_lossy(bv.version)
                    &&& lossy_list_matches(b.dependency_info.inputs@, bv.inputs)
                    &&& lossy_list_matches(b.dependency_info.outputs@, bv.outputs)
                    &&& lossy_list_matches(b.missing@, bv.missing)
                }),
                Err(e) => (r matches Err(e2) && e2 == e),
            },
    {
        let ghost goal = spec_parse_bin(contents@, 0, spec_bin_empty());
        let mut version_bytes: Vec<u8> = Vec::new();
        let mut version: String = String::new();
        let mut inputs: Vec<String> = Vec::new();
        let mut outputs: Vec<String> = Vec::new();
        let mut missing: Vec<String> = Vec::new();
        let ghost mut acc = spec_bin_empty();
        proof {
            assert(valid_utf8(Seq::<u8>::empty()));
            assert(decode_utf8(Seq::<u8>::empty()) =~= Seq::<char>::empty());
        }

        let mut i: usize = 0;
        loop
            invariant_except_break
                i <= contents@.len(),
                goal == spec_parse_bin(contents@, 0, spec_bin_empty()),
                goal == spec_parse_bin(contents@, i as int, acc),
                version_bytes@ == acc.version,
                version@ == crate::strutil::spec_utf8_lossy(acc.version),
                lossy_list_matches(inputs@, acc.inputs),
                lossy_list_matches(outputs@, acc.outputs),
                lossy_list_matches(missing@, acc.missing),
            invariant
                goal == spec_parse_bin(contents@, 0, spec_bin_empty()),
            ensures
                goal matches Ok(bv) && {
                    &&& version@ == crate::strutil::spec_utf8_lossy(bv.version)
                    &&& lossy_list_matches(inputs@, bv.inputs)
                    &&& lossy_list_matches(outputs@, bv.outputs)
                    &&& lossy_list_matches(missing@, bv.missing)
                },
            decreases contents@.len() - i,
        {
            if i >= contents.len() {
                proof {
                    assert(goal == Ok::<BinView, DependencyError>(acc));
                }
                break ;
            }
            let command = contents[i];

            if i + 1 >= contents.len() {
                return Err(DependencyError::MissingString);
            }

            let mut end: usize = i + 1;
            while end < contents.len() && contents[end] != 0
                invariant
                    i + 1 <= end <= contents@.len(),
                    spec_first_nul(contents@, i as int + 1) == spec_first_nul(
                        contents@,
                        end as int,
                    ),
                decreases contents@.len() - end,
            {
                end = end + 1;
            }
            proof {
                assert(spec_first_nul(contents@, end as int) == end);
            }
            if end >= contents.len() {
                return Err(DependencyError::UnterminatedString);
            }

            let raw = vstd::slice::slice_to_vec(&contents[i + 1..end]);
            let s = utf8_lossy(raw.as_slice());

            if command == 0x00 {
                if version_bytes.len() != 0 {
                    return Err(DependencyError::MultipleVersions);
                }
                proof {
                    acc = BinView { version: raw@, ..acc };
                }
                version_bytes = raw;
                version = s;
            } else if command == 0x10 {
                proof {
                    acc = BinView { inputs: acc.inputs + seq![raw@], ..acc };
                }
                inputs.push(s);
            } else if command == 0x40 {
                proof {
                    acc = BinView { outputs: acc.outputs + seq![raw@], ..acc };
                }
                outputs.push(s);
            } else if command == 0x11 {
                proof {
                    acc = BinView { missing: acc.missing + seq![raw@], ..acc };
                }
                missing.push(s);
            } else {
                return Err(DependencyError::UnknownCommand(command));
            }
            i = end + 1;
        }

        Ok(
            BinaryDependencyInfo {
                version,
                missing,
                dependency_info: DependencyInfo { inputs, outputs },
            },
        )
    }
}

/// Append one command: the byte, the string's bytes, a NUL.
fn write_command(result: &mut Vec<u8>, command: u8, string: &str)
    ensures
        final(result)@ == old(result)@ + spec_cmd_bytes(command, string@),
{
    result.push(command);
    result.extend_from_slice(string.as_bytes());
    result.push(0);
    proof {
        assert(result@ =~= old(result)@ + spec_cmd_bytes(command, string@));
    }
}

/// Dependency info gathered from walking a directory; the walk itself is
/// the caller's I/O.
#[derive(Debug, Clone)]
pub struct DirectoryDependencyInfo {
    pub directory: String,
    pub dependency_info: DependencyInfo,
}

/// The parser modes of the Makefile reader.
#[derive(Debug, Clone, Copy, PartialEq, Eq, Structural)]
pub enum MfMode {
    Begin,
    Comment,
    Output,
    Inputs,
}

/// The whitespace the Makefile reader splits on.
pub open spec fn spec_mf_ws(c: char) -> bool {
    c == ' ' || c == '\t' || c == '\n' || c == '\x0c' || c == '\r'
}

/// The Makefile reader's state: the mode, the token being gathered, the
/// rule being gathered, and the finished rules.
pub ghost struct MfState {
    pub mode: MfMode,
    pub current: Seq<char>,
    pub cur_inputs: Seq<Seq<char>>,
    pub cur_outputs: Seq<Seq<char>>,
    pub done: Seq<(Seq<Seq<char>>, Seq<Seq<char>>)>,
}

/// The state the reader starts in.
pub open spec fn spec_mf_init() -> MfState {
    MfState {
        mode: MfMode::Begin,
        current: Seq::empty(),
        cur_inputs: Seq::empty(),
        cur_outputs: Seq::empty(),
        done: Seq::empty(),
    }
}

/// Close the gathered token as an input, if there is one.
pub open spec fn spec_mf_take_input(st: MfState) -> MfState {
    if st.current.len() > 0 {
        MfState { cur_inputs: st.cur_inputs + seq![st.current], current: Seq::empty(), ..st }
    } else {
        st
    }
}

/// Close the gathered rule, if it has outputs.
pub open spec fn spec_mf_take_rule(st: MfState) -> MfState {
    if st.cur_outputs.len() > 0 {
        MfState {
            done: st.done + seq![(st.cur_outputs, st.cur_inputs)],
            cur_inputs: Seq::empty(),
            cur_outputs: Seq::empty(),
            ..st
        }
    } else {
        st
    }
}

/// One character of Makefile input; `escaped` says whether the previous
/// character was a backslash.
pub open spec fn spec_mf_step(st: MfState, c: char, escaped: bool) -> Result<
    MfState,
    DependencyError,
> {
    if !escaped && c == '#' {
        Ok(MfState { mode: MfMode::Comment, ..st })
    } else if !escaped && c == '\n' {
        match st.mode {
            MfMode::Begin => Ok(st),
            MfMode::Output => Err(DependencyError::OutputWithoutInputs),
            MfMode::Comment | MfMode::Inputs => Ok(
                MfState { mode: MfMode::Begin, ..spec_mf_take_rule(spec_mf_take_input(st)) },
            ),
        }
    } else if (!escaped && spec_mf_ws(c)) || (escaped && c == '\n') {
        match st.mode {
            MfMode::Begin | MfMode::Comment | MfMode::Output => Ok(st),
            MfMode::Inputs => {
                let st1 = if st.current.len() > 0 && escaped {
                    MfState { current: st.current.drop_last(), ..st }
                } else {
                    st
                };
                Ok(spec_mf_take_input(st1))
            },
        }
    } else if !escaped && c == ':' {
        match st.mode {
            MfMode::Begin => Err(DependencyError::InvalidMakefileSyntax),
            MfMode::Comment => Ok(st),
            MfMode::Output => {
                let st1 = if st.current.len() > 0 {
                    MfState {
                        cur_outputs: st.cur_outputs + seq![st.current],
                        current: Seq::empty(),
                        ..st
                    }
                } else {
                    st
                };
                Ok(MfState { mode: MfMode::Inputs, ..st1 })
            },
            MfMode::Inputs => Err(DependencyError::InvalidMakefileSyntax),
        }
    } else if c == '#' || c == '%' || (escaped && spec_mf_ws(c)) {
        match st.mode {
            MfMode::Begin => Err(DependencyError::InvalidMakefileSyntax),
            MfMode::Comment => Ok(st),
            MfMode::Output | MfMode::Inputs => {
                if escaped {
                    let st1 = if st.current.len() > 0 {
                        MfState { current: st.current.drop_last(), ..st }
                    } else {
                        st
                    };
                    Ok(MfState { current: st1.current + seq![c], ..st1 })
                } else {
                    Err(DependencyError::InvalidMakefileSyntax)
                }
            },
        }
    } else {
        match st.mode {
            MfMode::Begin => Ok(
                MfState { mode: MfMode::Output, current: st.current + seq![c], ..st },
            ),
            MfMode::Comment => Ok(st),
            MfMode::Output | MfMode::Inputs => Ok(
                MfState { current: st.current + seq![c], ..st },
            ),
        }
    }
}

/// Run the reader over the characters from `i` on.
pub open spec fn spec_mf_run(chars: Seq<char>, i: int, st: MfState) -> Result<
    MfState,
    DependencyError,
>
    decreases chars.len() - i,
{
    if i < 0 || i >= chars.len() {
        Ok(st)
    } else {
        match spec_mf_step(st, chars[i], i > 0 && chars[i - 1] == '\\') {
            Ok(st2) => spec_mf_run(chars, i + 1, st2),
            Err(e) => Err(e),
        }
    }
}

/// What the end of input closes: a trailing token and rule, unless an
/// output list was left without its colon.
pub open spec fn spec_mf_finalize(st: MfState) -> Result<
    Seq<(Seq<Seq<char>>, Seq<Seq<char>>)>,
    DependencyError,
> {
    match st.mode {
        MfMode::Begin => Ok(st.done),
        MfMode::Output => Err(DependencyError::OutputWithoutInputs),
        MfMode::Comment | MfMode::Inputs => Ok(
            spec_mf_take_rule(spec_mf_take_input(st)).done,
        ),
    }
}

/// The rules a Makefile-style dependency listing holds: for each rule,
/// its outputs and its inputs, in order.
pub open spec fn spec_parse_makefile(s: Seq<char>) -> Result<
    Seq<(Seq<Seq<char>>, Seq<Seq<char>>)>,
    DependencyError,
> {
    match spec_mf_run(s, 0, spec_mf_init()) {
        Ok(st) => spec_mf_finalize(st),
        Err(e) => Err(e),
    }
}

/// The character sequences of a list of strings.
pub open spec fn strings_views(items: Seq<String>) -> Seq<Seq<char>> {
    items.map(|i: int, s: String| s@)
}

/// A backslash before every space, `#` and `%`.
pub open spec fn spec_mf_escape(s: Seq<char>, i: int) -> Seq<char>
    decreases s.len() - i,
{
    if i < 0 || i >= s.len() {
        Seq::empty()
    } else if s[i] == ' ' || s[i] == '#' || s[i] == '%' {
        seq!['\\', s[i]] + spec_mf_escape(s, i + 1)
    } else {
        seq![s[i]] + spec_mf_escape(s, i + 1)
    }
}

/// The outputs of one rule, space-separated and escaped.
pub open spec fn spec_mf_outputs(outputs: Seq<Seq<char>>, i: int) -> Seq<char>
    decreases outputs.len() - i,
{
    if i < 0 || i >= outputs.len() {
        Seq::empty()
    } else {
        (if i > 0 {
            seq![' ']
        } else {
            Seq::empty()
        }) + spec_mf_escape(outputs[i], 0) + spec_mf_outputs(outputs, i + 1)
    }
}

/// The inputs of one rule, each on a continued line.
pub open spec fn spec_mf_inputs(inputs: Seq<Seq<char>>, i: int) -> Seq<char>
    decreases inputs.len() - i,
{
    if i < 0 || i >= inputs.len() {
        Seq::empty()
    } else {
        seq![' ', '\\', '\n', ' ', ' '] + spec_mf_escape(inputs[i], 0) + spec_mf_inputs(
            inputs,
            i + 1,
        )
    }
}

/// The serialized rules: each `outputs: inputs`, blank lines between.
pub open spec fn spec_mf_serialize(rules: Seq<DependencyInfo>, i: int) -> Seq<char>
    decreases rules.len() - i,
{
    if i < 0 || i >= rules.len() {
        Seq::empty()
    } else {
        spec_mf_outputs(strings_views(rules[i].outputs@), 0) + seq![':'] + spec_mf_inputs(
            strings_views(rules[i].inputs@),
            0,
        ) + (if i + 1 < rules.len() {
            seq!['\n', '\n']
        } else {
            Seq::empty()
        }) + spec_mf_serialize(rules, i + 1)
    }
}

/// Dependency info in Makefile form: a list of rules.
#[derive(Debug, Clone)]
pub struct MakefileDependencyInfo {
    pub dependency_info: Vec<DependencyInfo>,
}

/// Append the escaped form of one token.
fn push_escaped(out: &mut Vec<char>, s: &str)
    ensures
        final(out)@ == old(out)@ + spec_mf_escape(s@, 0),
{
    let chars = str_chars(s);
    let mut i: usize = 0;
    while i < chars.len()
        invariant
            chars@ == s@,
            i <= chars@.len(),
            out@ + spec_mf_escape(s@, i as int) =~= old(out)@ + spec_mf_escape(s@, 0),
        decreases chars@.len() - i,
    {
        let c = chars[i];
        let ghost before = out@;
        if c == ' ' || c == '#' || c == '%' {
            out.push('\\');
            out.push(c);
            proof {
                assert(out@ =~= before + seq!['\\', c]);
            }
        } else {
            out.push(c);
            proof {
                assert(out@ =~= before + seq![c]);
            }
        }
        proof {
            assert(out@ + spec_mf_escape(s@, i as int + 1) =~= old(out)@ + spec_mf_escape(s@, 0));
        }
        i = i + 1;
    }
    proof {
        assert(spec_mf_escape(s@, s@.len() as int) =~= Seq::<char>::empty());
        assert(out@ =~= out@ + Seq::<char>::empty());
    }
}

impl MakefileDependencyInfo {
    /// Serialize the rules: outputs space-separated, a colon, each input
    /// escaped on a continued line, rules separated by blank lines.
    pub fn serialize(&self) -> (r: String)
        ensures
            r@ == spec_mf_serialize(self.dependency_info@, 0),
    {
        let mut out: Vec<char> = Vec::new();
        let ghost rules = self.dependency_info@;
        let mut gi: usize = 0;
        while gi < self.dependency_info.len()
            invariant
                rules == self.dependency_info@,
                gi <= rules.len(),
                out@ + spec_mf_serialize(rules, gi as int) =~= spec_mf_serialize(rules, 0),
            decreases rules.len() - gi,
        {
            let rule = &self.dependency_info[gi];
            let ghost rule_start = out@;

            let mut oi: usize = 0;
            while oi < rule.outputs.len()
                invariant
                    rules == self.dependency_info@,
                    gi < rules.len(),
                    rule == &self.dependency_info[gi as int],
                    oi <= rule.outputs@.len(),
                    out@ + spec_mf_outputs(strings_views(rule.outputs@), oi as int) =~= rule_start
                        + spec_mf_outputs(strings_views(rule.outputs@), 0),
                decreases rule.outputs@.len() - oi,
            {
                let ghost before = out@;
                if oi > 0 {
                    out.push(' ');
                }
                push_escaped(&mut out, rule.outputs[oi].as_str());
                proof {
                    if oi > 0 {
                        assert(out@ =~= before + (seq![' '] + spec_mf_escape(
                            rule.outputs@[oi as int]@,
                            0,
                        )));
                    } else {
                        assert(out@ =~= before + (Seq::<char>::empty() + spec_mf_escape(
                            rule.outputs@[oi as int]@,
                            0,
                        )));
                    }
                    assert(strings_views(rule.outputs@)[oi as int] == rule.outputs@[oi as int]@);
                    assert(out@ + spec_mf_outputs(strings_views(rule.outputs@), oi as int + 1)
                        =~= rule_start + spec_mf_outputs(strings_views(rule.outputs@), 0));
                }
                oi = oi + 1;
            }
            proof {
                assert(spec_mf_outputs(
                    strings_views(rule.outputs@),
                    rule.outputs@.len() as int,
                ) =~= Seq::<char>::empty());
                assert(out@ =~= rule_start + spec_mf_outputs(strings_views(rule.outputs@), 0));
            }

            out.push(':');
            let ghost after_colon = out@;
            proof {
                assert(after_colon =~= rule_start + spec_mf_outputs(
                    strings_views(rule.outputs@),
                    0,
                ) + seq![':']);
            }

            let mut ii: usize = 0;
            while ii < rule.inputs.len()
                invariant
                    rules == self.dependency_info@,
                    gi < rules.len(),
                    rule == &self.dependency_info[gi as int],
                    ii <= rule.inputs@.len(),
                    out@ + spec_mf_inputs(strings_views(rule.inputs@), ii as int) =~= after_colon
                        + spec_mf_inputs(strings_views(rule.inputs@), 0),
                decreases rule.inputs@.len() - ii,
            {
                let ghost before = out@;
                out.push(' ');
                out.push('\\');
                out.push('\n');
                out.push(' ');
                out.push(' ');
                push_escaped(&mut out, rule.inputs[ii].as_str());
                proof {
                    assert(out@ =~= before + (seq![' ', '\\', '\n', ' ', ' '] + spec_mf_escape(
                        rule.inputs@[ii as int]@,
                        0,
                    )));
                    assert(strings_views(rule.inputs@)[ii as int] == rule.inputs@[ii as int]@);
                    assert(out@ + spec_mf_inputs(strings_views(rule.inputs@), ii as int + 1)
                        =~= after_colon + spec_mf_inputs(strings_views(rule.inputs@), 0));
                }
                ii = ii + 1;
            }
            proof {
                assert(spec_mf_inputs(strings_views(rule.inputs@), rule.inputs@.len() as int)
                    =~= Seq::<char>::empty());
                assert(out@ =~= after_colon + spec_mf_inputs(strings_views(rule.inputs@), 0));
            }

            if gi + 1 < self.dependency_info.len() {
                out.push('\n');
                out.push('\n');
            }
            proof {
                assert(spec_mf_serialize(rules, gi as int) == spec_mf_outputs(
                    strings_views(rules[gi as int].outputs@),
                    0,
                ) + seq![':'] + spec_mf_inputs(strings_views(rules[gi as int].inputs@), 0) + (if (
                gi as int) + 1 < rules.len() {
                    seq!['\n', '\n']
                } else {
                    Seq::<char>::empty()
                }) + spec_mf_serialize(rules, gi as int + 1));
                assert(out@ + spec_mf_serialize(rules, gi as int + 1) =~= spec_mf_serialize(
                    rules,
                    0,
                ));
            }
            gi = gi + 1;
        }
        proof {
            assert(spec_mf_serialize(rules, rules.len() as int) =~= Seq::<char>::empty());
            assert(out@ =~= spec_mf_serialize(rules, 0));
        }
        string_from_chars(out.as_slice())
    }

    /// Parse a Makefile-style listing: exactly `spec_parse_makefile`,
    /// with each token's characters carried into the strings.
    #[verifier::rlimit(100)]
    #[verifier::spinoff_prover]
    pub fn deserialize(contents: &str) -> (r: Result<MakefileDependencyInfo, DependencyError>)
        ensures
            match spec_parse_makefile(contents@) {
                Ok(rules) => (r matches Ok(m) && {
                    &&& m.dependency_info@.len() == rules.len()
                    &&& forall|k: int|
                        0 <= k < rules.len() ==> strings_views(
                            (#[trigger] m.dependency_info@[k]).outputs@,
                        ) == rules[k].0 && strings_views(m.dependency_info@[k].inputs@)
                            == rules[k].1
                }),
                Err(e) => (r matches Err(e2) && e2 == e),
            },
    {
        let chars = str_chars(contents);
        let ghost goal = spec_mf_run(contents@, 0, spec_mf_init());
        let mut mode = MfMode::Begin;
        let mut current: Vec<char> = Vec::new();
        let mut cur_inputs: Vec<String> = Vec::new();
        let mut cur_outputs: Vec<String> = Vec::new();
        let mut done_outputs: Vec<Vec<String>> = Vec::new();
        let mut done_inputs: Vec<Vec<String>> = Vec::new();
        let ghost mut acc = spec_mf_init();

        let mut i: usize = 0;
        loop
            invariant_except_break
                chars@ == contents@,
                i <= chars@.len(),
                goal == spec_mf_run(contents@, 0, spec_mf_init()),
                goal == spec_mf_run(contents@, i as int, acc),
                mode == acc.mode,
                current@ == acc.current,
                strings_views(cur_inputs@) == acc.cur_inputs,
                strings_views(cur_outputs@) == acc.cur_outputs,
                done_outputs@.len() == acc.done.len(),
                done_inputs@.len() == acc.done.len(),
                forall|k: int|
                    0 <= k < acc.done.len() ==> strings_views((#[trigger] done_outputs@[k])@)
                        == acc.done[k].0,
                forall|k: int|
                    0 <= k < acc.done.len() ==> strings_views((#[trigger] done_inputs@[k])@)
                        == acc.done[k].1,
            invariant
                chars@ == contents@,
                goal == spec_mf_run(contents@, 0, spec_mf_init()),
            ensures
                goal matches Ok(st) && {
                    &&& mode == st.mode
                    &&& current@ == st.current
                    &&& strings_views(cur_inputs@) == st.cur_inputs
                    &&& strings_views(cur_outputs@) == st.cur_outputs
                    &&& done_outputs@.len() == st.done.len()
                    &&& done_inputs@.len() == st.done.len()
                    &&& forall|k: int|
                        0 <= k < st.done.len() ==> strings_views((#[trigger] done_outputs@[k])@)
                            == st.done[k].0
                    &&& forall|k: int|
                        0 <= k < st.done.len() ==> strings_views((#[trigger] done_inputs@[k])@)
                            == st.done[k].1
                },
            decreases chars@.len() - i,
        {
            if i >= chars.len() {
                proof {
                    assert(goal == Ok::<MfState, DependencyError>(acc));
                }
                break ;
            }
            let c = chars[i];
            let escaped = i > 0 && chars[i - 1] == '\\';
            let ghost acc0 = acc;
            let ghost stepped = spec_mf_step(acc, c, escaped);

            if !escaped && c == '#' {
                mode = MfMode::Comment;
                proof {
                    acc = stepped->Ok_0;
                    assert(acc.done == acc0.done);
                    assert forall|k: int|
                        0 <= k < acc.done.len() implies strings_views(
                        (#[trigger] done_outputs@[k])@,
                    ) == acc.done[k].0 by {
                        assert(acc.done[k] == acc0.done[k]);
                        assert(strings_views(done_outputs@[k]@) == acc0.done[k].0);
                    }
                    assert forall|k: int|
                        0 <= k < acc.done.len() implies strings_views(
                        (#[trigger] done_inputs@[k])@,
                    ) == acc.done[k].1 by {
                        assert(acc.done[k] == acc0.done[k]);
                        assert(strings_views(done_inputs@[k]@) == acc0.done[k].1);
                    }
                }
            } else if !escaped && c == '\n' {
                match mode {
                    MfMode::Begin => {
                        proof {
                            acc = stepped->Ok_0;
                            assert(acc.done == acc0.done);
                            assert forall|k: int|
                                0 <= k < acc.done.len() implies strings_views(
                                (#[trigger] done_outputs@[k])@,
                            ) == acc.done[k].0 && strings_views(done_inputs@[k]@) == acc.done[
                                k
                            ].1 by {
                                assert(acc.done[k] == acc0.done[k]);
                                assert(strings_views(done_outputs@[k]@) == acc0.done[k].0);
                            }
                        }
                    },
                    MfMode::Output => {
                        return Err(DependencyError::OutputWithoutInputs);
                    },
                    MfMode::Comment | MfMode::Inputs => {
                        let ghost st1 = spec_mf_take_input(acc);
                        let ghost st2 = spec_mf_take_rule(st1);
                        if current.len() > 0 {
                            let token = string_from_chars(current.as_slice());
                            let ghost ci = cur_inputs@;
                            cur_inputs.push(token);
                            current = Vec::new();
                            proof {
                                assert(strings_views(cur_inputs@) =~= strings_views(ci) + seq![
                                    acc.current,
                                ]);
                            }
                        }
                        proof {
                            assert(strings_views(cur_inputs@) =~= st1.cur_inputs);
                        }
                        if cur_outputs.len() > 0 {
                            let ghost dn = done_outputs@.len() as int;
                            let ghost pre_out = done_outputs@;
                            let ghost pre_in = done_inputs@;
                            done_outputs.push(cur_outputs);
                            done_inputs.push(cur_inputs);
                            cur_outputs = Vec::new();
                            cur_inputs = Vec::new();
                            proof {
                                assert(st2.done =~= st1.done + seq![
                                    (st1.cur_outputs, st1.cur_inputs),
                                ]);
                                assert(strings_views(done_outputs@[dn]@) == st1.cur_outputs);
                                assert(strings_views(done_inputs@[dn]@) == st1.cur_inputs);
                                assert forall|k: int|
                                    0 <= k < st2.done.len() implies strings_views(
                                    (#[trigger] done_outputs@[k])@,
                                ) == st2.done[k].0 by {
                                    if k < dn {
                                        assert(done_outputs@[k] == pre_out[k]);
                                        assert(st2.done[k] == acc.done[k]);
                                    } else {
                                        assert(st2.done[k] == (st1.cur_outputs, st1.cur_inputs));
                                    }
                                }
                                assert forall|k: int|
                                    0 <= k < st2.done.len() implies strings_views(
                                    (#[trigger] done_inputs@[k])@,
                                ) == st2.done[k].1 by {
                                    if k < dn {
                                        assert(done_inputs@[k] == pre_in[k]);
                                        assert(st2.done[k] == acc.done[k]);
                                    } else {
                                        assert(st2.done[k] == (st1.cur_outputs, st1.cur_inputs));
                                    }
                                }
                                assert(strings_views(cur_outputs@) =~= Seq::<Seq<char>>::empty());
                                assert(strings_views(cur_inputs@) =~= Seq::<Seq<char>>::empty());
                            }
                        } else {
                            proof {
                                assert(st2 == st1);
                            }
                        }
                        mode = MfMode::Begin;
                        proof {
                            acc = stepped->Ok_0;
                            assert(acc.done == st2.done);
                            assert(done_outputs@.len() == acc.done.len());
                            assert forall|k: int|
                                0 <= k < acc.done.len() implies strings_views(
                                (#[trigger] done_outputs@[k])@,
                            ) == acc.done[k].0 by {
                                assert(acc.done[k] == st2.done[k]);
                                assert(strings_views(done_outputs@[k]@) == st2.done[k].0);
                            }
                            assert forall|k: int|
                                0 <= k < acc.done.len() implies strings_views(
                                (#[trigger] done_inputs@[k])@,
                            ) == acc.done[k].1 by {
                                assert(acc.done[k] == st2.done[k]);
                                assert(strings_views(done_inputs@[k]@) == st2.done[k].1);
                            }
                        }
                    },
                }
            } else if (!escaped && (c == ' ' || c == '\t' || c == '\n' || c == '\x0c' || c
                == '\r')) || (escaped && c == '\n') {
                match mode {
                    MfMode::Begin | MfMode::Comment | MfMode::Output => {},
                    MfMode::Inputs => {
                        if current.len() > 0 && escaped {
                            current.pop();
                        }
                        if current.len() > 0 {
                            let token = string_from_chars(current.as_slice());
                            let ghost ci = cur_inputs@;
                            cur_inputs.push(token);
                            current = Vec::new();
                            proof {
                                assert(strings_views(cur_inputs@) =~= strings_views(ci) + seq![
                                    stepped->Ok_0.cur_inputs.last(),
                                ]);
                            }
                        }
                        proof {
                            assert(current@ =~= Seq::<char>::empty()
                                || current@ == stepped->Ok_0.current);
                        }
                    },
                }
                proof {
                    acc = stepped->Ok_0;
                    assert(acc.done == acc0.done);
                    assert forall|k: int|
                        0 <= k < acc.done.len() implies strings_views(
                        (#[trigger] done_outputs@[k])@,
                    ) == acc.done[k].0 by {
                        assert(acc.done[k] == acc0.done[k]);
                        assert(strings_views(done_outputs@[k]@) == acc0.done[k].0);
                    }
                    assert forall|k: int|
                        0 <= k < acc.done.len() implies strings_views(
                        (#[trigger] done_inputs@[k])@,
                    ) == acc.done[k].1 by {
                        assert(acc.done[k] == acc0.done[k]);
                        assert(strings_views(done_inputs@[k]@) == acc0.done[k].1);
                    }
                }
            } else if !escaped && c == ':' {
                match mode {
                    MfMode::Begin => {
                        return Err(DependencyError::InvalidMakefileSyntax);
                    },
                    MfMode::Comment => {},
                    MfMode::Output => {
                        if current.len() > 0 {
                            let token = string_from_chars(current.as_slice());
                            let ghost co = cur_outputs@;
                            cur_outputs.push(token);
                            current = Vec::new();
                            proof {
                                assert(strings_views(cur_outputs@) =~= strings_views(co) + seq![
                                    acc.current,
                                ]);
                            }
                        }
                        mode = MfMode::Inputs;
                    },
                    MfMode::Inputs => {
                        return Err(DependencyError::InvalidMakefileSyntax);
                    },
                }
                proof {
                    acc = stepped->Ok_0;
                    assert(acc.done == acc0.done);
                    assert forall|k: int|
                        0 <= k < acc.done.len() implies strings_views(
                        (#[trigger] done_outputs@[k])@,
                    ) == acc.done[k].0 by {
                        assert(acc.done[k] == acc0.done[k]);
                        assert(strings_views(done_outputs@[k]@) == acc0.done[k].0);
                    }
                    assert forall|k: int|
                        0 <= k < acc.done.len() implies strings_views(
                        (#[trigger] done_inputs@[k])@,
                    ) == acc.done[k].1 by {
                        assert(acc.done[k] == acc0.done[k]);
                        assert(strings_views(done_inputs@[k]@) == acc0.done[k].1);
                    }
                }
            } else if c == '#' || c == '%' || (escaped && (c == ' ' || c == '\t' || c == '\n' || c
                == '\x0c' || c == '\r')) {
                match mode {
                    MfMode::Begin => {
                        return Err(DependencyError::InvalidMakefileSyntax);
                    },
                    MfMode::Comment => {},
                    MfMode::Output | MfMode::Inputs => {
                        if escaped {
                            if current.len() > 0 {
                                current.pop();
                            }
                            current.push(c);
                            proof {
                                assert(current@ =~= stepped->Ok_0.current);
                            }
                        } else {
                            return Err(DependencyError::InvalidMakefileSyntax);
                        }
                    },
                }
                proof {
                    acc = stepped->Ok_0;
                    assert(acc.done == acc0.done);
                    assert forall|k: int|
                        0 <= k < acc.done.len() implies strings_views(
                        (#[trigger] done_outputs@[k])@,
                    ) == acc.done[k].0 by {
                        assert(acc.done[k] == acc0.done[k]);
                        assert(strings_views(done_outputs@[k]@) == acc0.done[k].0);
                    }
                    assert forall|k: int|
                        0 <= k < acc.done.len() implies strings_views(
                        (#[trigger] done_inputs@[k])@,
                    ) == acc.done[k].1 by {
                        assert(acc.done[k] == acc0.done[k]);
                        assert(strings_views(done_inputs@[k]@) == acc0.done[k].1);
                    }
                }
            } else {
                match mode {
                    MfMode::Begin => {
                        mode = MfMode::Output;
                        current.push(c);
                    },
                    MfMode::Comment => {},
                    MfMode::Output | MfMode::Inputs => {
                        current.push(c);
                    },
                }
                proof {
                    acc = stepped->Ok_0;
                    assert(current@ =~= acc.current);
                }
            }
            i = i + 1;
        }

        // End of input: close the trailing token and rule.
        let ghost st = goal->Ok_0;
        match mode {
            MfMode::Begin => {},
            MfMode::Output => {
                return Err(DependencyError::OutputWithoutInputs);
            },
            MfMode::Comment | MfMode::Inputs => {
                if current.len() > 0 {
                    let token = string_from_chars(current.as_slice());
                    let ghost ci = cur_inputs@;
                    cur_inputs.push(token);
                    proof {
                        assert(strings_views(cur_inputs@) =~= strings_views(ci) + seq![
                            st.current,
                        ]);
                    }
                }
                proof {
                    assert(strings_views(cur_inputs@) =~= spec_mf_take_input(st).cur_inputs);
                }
                if cur_outputs.len() > 0 {
                    done_outputs.push(cur_outputs);
                    done_inputs.push(cur_inputs);
                    cur_outputs = Vec::new();
                    cur_inputs = Vec::new();
                }
            },
        }
        let ghost rules = spec_mf_finalize(st)->Ok_0;

        let mut result: Vec<DependencyInfo> = Vec::new();
        let mut k: usize = 0;
        proof {
            assert(done_outputs@.len() == rules.len());
        }
        while k < done_outputs.len()
            invariant
                done_outputs@.len() == done_inputs@.len(),
                done_outputs@.len() == rules.len(),
                forall|j: int|
                    0 <= j < rules.len() ==> strings_views((#[trigger] done_outputs@[j])@)
                        == rules[j].0 && strings_views(done_inputs@[j]@) == rules[j].1,
                k <= rules.len(),
                result@.len() == k,
                forall|j: int|
                    0 <= j < k ==> strings_views((#[trigger] result@[j]).outputs@) == rules[j].0
                        && strings_views(result@[j].inputs@) == rules[j].1,
            decreases done_outputs@.len() - k,
        {
            let outputs = clone_strings(&done_outputs[k]);
            let inputs = clone_strings(&done_inputs[k]);
            proof {
                assert(strings_views(outputs@) =~= strings_views(done_outputs@[k as int]@));
                assert(strings_views(inputs@) =~= strings_views(done_inputs@[k as int]@));
            }
            result.push(DependencyInfo { inputs, outputs });
            k = k + 1;
        }
        Ok(MakefileDependencyInfo { dependency_info: result })
    }
}

/// A copy of a string list with the same characters.
fn clone_strings(items: &Vec<String>) -> (r: Vec<String>)
    ensures
        r@.len() == items@.len(),
        forall|k: int| 0 <= k < items@.len() ==> (#[trigger] r@[k])@ == items@[k]@,
{
    let mut out: Vec<String> = Vec::new();
    let mut i: usize = 0;
    while i < items.len()
        invariant
            i <= items@.len(),
            out@.len() == i,
            forall|k: int| 0 <= k < i ==> (#[trigger] out@[k])@ == items@[k]@,
        decreases items@.len() - i,
    {
        out.push(items[i].clone());
        i = i + 1;
    }
    out
}

} // verus!
