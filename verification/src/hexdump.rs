//! The hexdump subcommand's decisions: which reader and writer to use,
//! which settings the dump gets, which template knobs a generation gets.
//! The outcome is a plan of plain values; performing the I/O and rendering
//! is left to the unverified shell.
use vstd::prelude::*;

use crate::args::{HexdumpArgs, HexdumpDumpArgs, HexdumpFormat, HexdumpGenerateArgs,
    HexdumpGenerateFormat, HexdumpSubcommand};

verus! {

/// The fully-defaulted settings of a dump: eight columns and groups of two
/// bytes unless chosen otherwise, and the plain form drops the separator,
/// the addresses and the interpretation column.
#[derive(Clone, Debug)]
pub struct DumpSettings {
    pub format: HexdumpFormat,
    pub group_size: usize,
    pub columns: usize,
    pub address: u64,
    pub separator: bool,
    pub show_address: bool,
    pub show_interpretation: bool,
}

/// Compute the dump settings from the arguments.
pub fn create_dump_settings(start_offset: u64, args: &HexdumpDumpArgs) -> (r: DumpSettings)
    ensures
        r.format == args.format,
        r.group_size == match args.group_size {
            Some(g) => g,
            None => 2usize,
        },
        r.columns == match args.columns {
            Some(c) => c,
            None => 8usize,
        },
        r.address == start_offset,
        r.separator == !args.plain_hexdump,
        r.show_address == !args.plain_hexdump,
        r.show_interpretation == !args.plain_hexdump,
{
    let columns = match args.columns {
        Some(c) => c,
        None => 8,
    };
    let group_size = match args.group_size {
        Some(g) => g,
        None => 2,
    };
    DumpSettings {
        format: args.format,
        group_size,
        columns,
        address: start_offset,
        separator: !args.plain_hexdump,
        show_address: !args.plain_hexdump,
        show_interpretation: !args.plain_hexdump,
    }
}

/// What the shell is to do for one hexdump invocation.
#[derive(Clone, Debug)]
pub enum HexdumpPlan {
    Dump {
        output_file: String,
        input_file: String,
        seek: u64,
        length: Option<u64>,
        settings: DumpSettings,
    },
    Generate {
        output_file: String,
        input_file: String,
        seek: u64,
        length: Option<u64>,
        template: HexdumpGenerateFormat,
        prefix: Option<String>,
        suffix: Option<String>,
        separator: Option<String>,
        line_size: Option<u64>,
    },
}

/// Decide the plan of a hexdump invocation: the output defaults to the
/// standard output and the input to the standard input, named by the
/// reserved file names the shell understands.
pub fn run(args: HexdumpArgs) -> (r: HexdumpPlan)
    ensures
        match args.subcommand {
            HexdumpSubcommand::Dump(d) => r matches HexdumpPlan::Dump {
                output_file,
                input_file,
                seek,
                length,
                settings,
            } && output_file@ == match args.output_file {
                Some(f) => f@,
                None => "stdout"@,
            } && input_file@ == match d.file {
                Some(f) => f@,
                None => "stdin"@,
            } && seek == args.start_offset && length == args.length && settings.format == d.format
                && settings.address == args.start_offset && settings.separator == !d.plain_hexdump
                && settings.show_address == !d.plain_hexdump && settings.show_interpretation
                == !d.plain_hexdump && settings.group_size == match d.group_size {
                Some(g) => g,
                None => 2usize,
            } && settings.columns == match d.columns {
                Some(c) => c,
                None => 8usize,
            },
            HexdumpSubcommand::Generate(g) => r matches HexdumpPlan::Generate {
                output_file,
                input_file,
                seek,
                length,
                template,
                prefix,
                suffix,
                separator,
                line_size,
            } && output_file@ == match args.output_file {
                Some(f) => f@,
                None => "stdout"@,
            } && input_file@ == match g.file {
                Some(f) => f@,
                None => "stdin"@,
            } && seek == args.start_offset && length == args.length && template == g.template
                && prefix == g.prefix && suffix == g.suffix && separator == g.separator && line_size
                == g.line_size,
        },
{
    let output_file = match args.output_file {
        Some(f) => f,
        None => "stdout".to_owned(),
    };
    match args.subcommand {
        HexdumpSubcommand::Dump(d) => {
            let settings = create_dump_settings(args.start_offset, &d);
            let input_file = match d.file {
                Some(f) => f,
                None => "stdin".to_owned(),
            };
            HexdumpPlan::Dump {
                output_file,
                input_file,
                seek: args.start_offset,
                length: args.length,
                settings,
            }
        },
        HexdumpSubcommand::Generate(g) => {
            let input_file = match g.file {
                Some(f) => f,
                None => "stdin".to_owned(),
            };
            HexdumpPlan::Generate {
                output_file,
                input_file,
                seek: args.start_offset,
                length: args.length,
                template: g.template,
                prefix: g.prefix,
                suffix: g.suffix,
                separator: g.separator,
                line_size: g.line_size,
            }
        },
    }
}

} // verus!
