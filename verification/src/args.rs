//! The argument surface, as plain data.  The command-line parsing itself is
//! unverified shell code; these types carry the parsed values into the
//! library, and the small decisions over them (which bump was chosen,
//! which defaults apply) are made here where they can be specified.
use vstd::prelude::*;

use crate::semver::BumpKind;

verus! {

#[derive(Clone, Debug)]
pub struct Args {
    pub subcommand: Subcommand,
}

#[derive(Clone, Debug)]
pub enum Subcommand {
    JsonToCpp(JsonToCppCompileArgs),
    YamlToCpp(YamlToCppCompileArgs),
    Embed(EmbedCompileArgs),
    Hexdump(HexdumpArgs),
    Version(VersionArgs),
    WhoIsTheBest,
}

#[derive(Clone, Debug)]
pub struct JsonToCppCompileArgs {
    pub input: Vec<String>,
    pub namespace: String,
    pub output_dir: String,
    pub output_name: Option<String>,
    pub nlohmann: bool,
}

#[derive(Clone, Debug)]
pub struct YamlToCppCompileArgs {
    pub input: Vec<String>,
    pub namespace: String,
    pub output_dir: String,
    pub output_name: Option<String>,
    pub nlohmann: bool,
}

#[derive(Clone, Debug)]
pub struct EmbedCompileArgs {
    pub text: Vec<String>,
    pub binary: Vec<String>,
    pub namespace: String,
    pub output_dir: String,
    pub output_name: Option<String>,
}

#[derive(Clone, Debug)]
pub struct HexdumpArgs {
    pub output_file: Option<String>,
    pub start_offset: u64,
    pub length: Option<u64>,
    pub subcommand: HexdumpSubcommand,
}

#[derive(Clone, Debug)]
pub enum HexdumpSubcommand {
    Dump(HexdumpDumpArgs),
    Generate(HexdumpGenerateArgs),
}

#[derive(Clone, Copy, Debug, PartialEq, Eq, Structural)]
pub enum HexdumpFormat {
    Hex,
    Bin,
    Oct,
    Dec,
}

#[derive(Clone, Copy, Debug, PartialEq, Eq, Structural)]
pub enum HexdumpGenerateFormat {
    C,
    Cpp,
    Rust,
    Python,
}

#[derive(Clone, Debug)]
pub struct HexdumpDumpArgs {
    pub file: Option<String>,
    pub plain_hexdump: bool,
    pub format: HexdumpFormat,
    pub group_size: Option<usize>,
    pub columns: Option<usize>,
}

#[derive(Clone, Debug)]
pub struct HexdumpGenerateArgs {
    pub file: Option<String>,
    pub template: HexdumpGenerateFormat,
    pub prefix: Option<String>,
    pub suffix: Option<String>,
    pub separator: Option<String>,
    pub line_size: Option<u64>,
}

#[derive(Clone, Debug)]
pub struct VersionArgs {
    pub show: bool,
    pub assign: Option<String>,
    pub bump_patch: bool,
    pub bump_minor: bool,
    pub bump_major: bool,
}

impl VersionArgs {
    /// Which bump the flags select, checked in the fixed order major,
    /// minor, patch; none of them means the version is kept as computed.
    pub open spec fn spec_bump_kind(self) -> BumpKind {
        if self.bump_major {
            BumpKind::Major
        } else if self.bump_minor {
            BumpKind::Minor
        } else if self.bump_patch {
            BumpKind::Patch
        } else {
            BumpKind::Keep
        }
    }

    pub fn bump_kind(&self) -> (r: BumpKind)
        ensures
            r == self.spec_bump_kind(),
    {
        if self.bump_major {
            BumpKind::Major
        } else if self.bump_minor {
            BumpKind::Minor
        } else if self.bump_patch {
            BumpKind::Patch
        } else {
            BumpKind::Keep
        }
    }
}

} // verus!
