use versync::args::{HexdumpArgs, HexdumpDumpArgs, HexdumpFormat, HexdumpGenerateArgs,
    HexdumpGenerateFormat, HexdumpSubcommand, VersionArgs};
use versync::compilers::{output_stem, CompileError, EmbedCompiler, HexBytes, JsonCompiler,
    YamlCompiler};
use versync::export_header::should_skip_directory;
use versync::hexdump::{run, HexdumpPlan};
use versync::semver::BumpKind;

#[test]
fn output_stem_joins_input_stems() {
    let files = vec![b"src/foo.json".to_vec(), b"bar.json".to_vec()];
    assert_eq!(output_stem(&files, &None), Ok(b"foo_bar".to_vec()));
}

#[test]
fn output_stem_prefers_explicit_name() {
    let files = vec![b"src/foo.json".to_vec()];
    assert_eq!(
        output_stem(&files, &Some(b"custom".to_vec())),
        Ok(b"custom".to_vec())
    );
}

#[test]
fn output_stem_edge_cases() {
    assert_eq!(output_stem(&vec![], &None), Ok(b"".to_vec()));
    assert_eq!(
        output_stem(&vec![b"dir/".to_vec()], &None),
        Err(CompileError::MissingStem)
    );
    // a hidden file keeps its whole name
    assert_eq!(
        output_stem(&vec![b".gitignore".to_vec()], &None),
        Ok(b".gitignore".to_vec())
    );
    // only the last extension is stripped
    assert_eq!(
        output_stem(&vec![b"a/b/archive.tar.gz".to_vec()], &None),
        Ok(b"archive.tar".to_vec())
    );
}

#[test]
fn hex_bytes_rendering() {
    assert_eq!(HexBytes(vec![]).to_hex_bytes(), b"".to_vec());
    assert_eq!(HexBytes(vec![0]).to_hex_bytes(), b"0x00".to_vec());
    assert_eq!(
        HexBytes(vec![0, 255, 16]).to_hex_bytes(),
        b"0x00,\n0xFF,\n0x10".to_vec()
    );
    assert_eq!(HexBytes(vec![0xAB]).to_hex_bytes(), b"0xAB".to_vec());
}

#[test]
fn json_compiler_prepares_and_validates() {
    let c = JsonCompiler::new("demo".to_string(), "out", true);
    let files = vec![b"data/config.json".to_vec()];
    let contents = vec![b"{\"a\": 1}".to_vec()];
    let d = c.compile_internal(&files, &contents, b"config").unwrap();
    assert_eq!(d.keys, vec![b"config".to_vec()]);
    assert_eq!(d.data, vec![b"{\"a\": 1}".to_vec()]);
    assert_eq!(d.files, files);
    assert_eq!(d.namespace, "demo".to_string());
    assert_eq!(d.output_stem, b"config".to_vec());
    assert!(d.with_nlohmann);
}

#[test]
fn json_compiler_rejects_malformed_input() {
    let c = JsonCompiler::new("demo".to_string(), "out", false);
    let files = vec![b"bad.json".to_vec()];
    let contents = vec![b"{\"a\": ".to_vec()];
    assert!(matches!(
        c.compile_internal(&files, &contents, b"bad"),
        Err(CompileError::InvalidData)
    ));
}

#[test]
fn yaml_compiler_converts_to_json() {
    let c = YamlCompiler::new("demo".to_string(), "out", false);
    let files = vec![b"cfg.yml".to_vec()];
    let contents = vec![b"a: 1\nb: two\n".to_vec()];
    let d = c.compile_internal(&files, &contents, b"cfg").unwrap();
    assert_eq!(d.data, vec![b"{\"a\":1,\"b\":\"two\"}".to_vec()]);
    assert_eq!(d.keys, vec![b"cfg".to_vec()]);
}

#[test]
fn yaml_compiler_rejects_malformed_input() {
    let c = YamlCompiler::new("demo".to_string(), "out", false);
    let files = vec![b"bad.yml".to_vec()];
    let contents = vec![b"a: [1,\n".to_vec()];
    assert!(matches!(
        c.compile_internal(&files, &contents, b"bad"),
        Err(CompileError::InvalidData)
    ));
}

#[test]
fn embed_compiler_prepares_resources() {
    let c = EmbedCompiler::new("demo".to_string(), "out");
    let text_files = vec![b"res/banner.txt".to_vec()];
    let text_contents = vec![b"hello".to_vec()];
    let binary_files = vec![b"res/logo.png".to_vec()];
    let binary_contents = vec![vec![0u8, 255u8]];
    let d = c.compile_internal(&text_files, &text_contents, &binary_files, &binary_contents, b"rc");
    assert_eq!(d.files, vec![b"res/banner.txt".to_vec(), b"res/logo.png".to_vec()]);
    assert_eq!(d.text_getters, vec![b"banner_txt".to_vec()]);
    assert_eq!(d.binary_getters, vec![b"logo_png".to_vec()]);
    assert_eq!(d.text_data, vec![b"hello".to_vec()]);
    assert_eq!(d.binary_lens, vec![2usize]);
    assert_eq!(d.binary_hex, vec![b"0x00,\n0xFF".to_vec()]);
    assert_eq!(d.output_stem, b"rc".to_vec());
}

#[test]
fn hexdump_dump_plan_defaults() {
    let args = HexdumpArgs {
        output_file: None,
        start_offset: 5,
        length: Some(100),
        subcommand: HexdumpSubcommand::Dump(HexdumpDumpArgs {
            file: None,
            plain_hexdump: false,
            format: HexdumpFormat::Hex,
            group_size: None,
            columns: None,
        }),
    };
    match run(args) {
        HexdumpPlan::Dump { output_file, input_file, seek, length, settings } => {
            assert_eq!(output_file, "stdout".to_string());
            assert_eq!(input_file, "stdin".to_string());
            assert_eq!(seek, 5);
            assert_eq!(length, Some(100));
            assert_eq!(settings.columns, 8);
            assert_eq!(settings.group_size, 2);
            assert_eq!(settings.address, 5);
            assert!(settings.separator);
            assert!(settings.show_address);
            assert!(settings.show_interpretation);
        },
        _ => panic!("expected a dump plan"),
    }
}

#[test]
fn hexdump_plain_dump_drops_decoration() {
    let args = HexdumpArgs {
        output_file: Some("o.txt".to_string()),
        start_offset: 0,
        length: None,
        subcommand: HexdumpSubcommand::Dump(HexdumpDumpArgs {
            file: Some("in.bin".to_string()),
            plain_hexdump: true,
            format: HexdumpFormat::Bin,
            group_size: Some(4),
            columns: Some(16),
        }),
    };
    match run(args) {
        HexdumpPlan::Dump { output_file, input_file, settings, .. } => {
            assert_eq!(output_file, "o.txt".to_string());
            assert_eq!(input_file, "in.bin".to_string());
            assert_eq!(settings.columns, 16);
            assert_eq!(settings.group_size, 4);
            assert!(!settings.separator);
            assert!(!settings.show_address);
            assert!(!settings.show_interpretation);
        },
        _ => panic!("expected a dump plan"),
    }
}

#[test]
fn hexdump_generate_plan_carries_knobs() {
    let args = HexdumpArgs {
        output_file: None,
        start_offset: 0,
        length: None,
        subcommand: HexdumpSubcommand::Generate(HexdumpGenerateArgs {
            file: Some("x.bin".to_string()),
            template: HexdumpGenerateFormat::Rust,
            prefix: Some("P".to_string()),
            suffix: None,
            separator: Some(", ".to_string()),
            line_size: Some(12),
        }),
    };
    match run(args) {
        HexdumpPlan::Generate { input_file, template, prefix, suffix, separator, line_size, .. } => {
            assert_eq!(input_file, "x.bin".to_string());
            assert_eq!(template, HexdumpGenerateFormat::Rust);
            assert_eq!(prefix, Some("P".to_string()));
            assert_eq!(suffix, None);
            assert_eq!(separator, Some(", ".to_string()));
            assert_eq!(line_size, Some(12));
        },
        _ => panic!("expected a generate plan"),
    }
}

#[test]
fn version_args_pick_one_bump() {
    let base = VersionArgs {
        show: false,
        assign: None,
        bump_patch: false,
        bump_minor: false,
        bump_major: false,
    };
    assert_eq!(base.bump_kind(), BumpKind::Keep);
    let major = VersionArgs { bump_major: true, ..base.clone() };
    assert_eq!(major.bump_kind(), BumpKind::Major);
    let minor = VersionArgs { bump_minor: true, ..base.clone() };
    assert_eq!(minor.bump_kind(), BumpKind::Minor);
    let patch = VersionArgs { bump_patch: true, ..base };
    assert_eq!(patch.bump_kind(), BumpKind::Patch);
}

#[test]
fn skip_list_for_header_search() {
    assert!(should_skip_directory(b"target"));
    assert!(should_skip_directory(b"build"));
    assert!(should_skip_directory(b"out"));
    assert!(should_skip_directory(b".git"));
    assert!(should_skip_directory(b"node_modules"));
    assert!(should_skip_directory(b"__pycache__"));
    assert!(should_skip_directory(b".cache"));
    assert!(!should_skip_directory(b"src"));
    assert!(!should_skip_directory(b"include"));
}
