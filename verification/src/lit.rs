//! The fixed tokens of the file grammars, as byte sequences.  Verus gives a
//! byte-string literal no known contents, so each token is written out as
//! ASCII codes once, with an executable builder proved against the
//! specification-level sequence.
use vstd::prelude::*;

verus! {

pub const NL: u8 = 10;

pub const QUOTE: u8 = 34;

pub const HASH: u8 = 35;

pub const DOT: u8 = 46;

pub const EQ: u8 = 61;

pub const LBRACKET: u8 = 91;

pub const LPAREN: u8 = 40;

pub const UNDERSCORE: u8 = 95;

pub const SLASH: u8 = 47;

/// "version"
pub open spec fn version_key() -> Seq<u8> {
    seq![118u8, 101u8, 114u8, 115u8, 105u8, 111u8, 110u8]
}

pub fn lit_version_key() -> (r: Vec<u8>)
    ensures
        r@ == version_key(),
{
    let mut v: Vec<u8> = Vec::new();
    v.push(118);
    v.push(101);
    v.push(114);
    v.push(115);
    v.push(105);
    v.push(111);
    v.push(110);
    proof {
        assert(v@ =~= version_key());
    }
    v
}

/// "[package]"
pub open spec fn package_header() -> Seq<u8> {
    seq![91u8, 112u8, 97u8, 99u8, 107u8, 97u8, 103u8, 101u8, 93u8]
}

pub fn lit_package_header() -> (r: Vec<u8>)
    ensures
        r@ == package_header(),
{
    let mut v: Vec<u8> = Vec::new();
    v.push(91);
    v.push(112);
    v.push(97);
    v.push(99);
    v.push(107);
    v.push(97);
    v.push(103);
    v.push(101);
    v.push(93);
    proof {
        assert(v@ =~= package_header());
    }
    v
}

/// "class"
pub open spec fn class_kw() -> Seq<u8> {
    seq![99u8, 108u8, 97u8, 115u8, 115u8]
}

pub fn lit_class_kw() -> (r: Vec<u8>)
    ensures
        r@ == class_kw(),
{
    let mut v: Vec<u8> = Vec::new();
    v.push(99);
    v.push(108);
    v.push(97);
    v.push(115);
    v.push(115);
    proof {
        assert(v@ =~= class_kw());
    }
    v
}

/// "ConanFile"
pub open spec fn conanfile_kw() -> Seq<u8> {
    seq![67u8, 111u8, 110u8, 97u8, 110u8, 70u8, 105u8, 108u8, 101u8]
}

pub fn lit_conanfile_kw() -> (r: Vec<u8>)
    ensures
        r@ == conanfile_kw(),
{
    let mut v: Vec<u8> = Vec::new();
    v.push(67);
    v.push(111);
    v.push(110);
    v.push(97);
    v.push(110);
    v.push(70);
    v.push(105);
    v.push(108);
    v.push(101);
    proof {
        assert(v@ =~= conanfile_kw());
    }
    v
}

/// "project" (lower case; matched case-insensitively)
pub open spec fn project_kw() -> Seq<u8> {
    seq![112u8, 114u8, 111u8, 106u8, 101u8, 99u8, 116u8]
}

pub fn lit_project_kw() -> (r: Vec<u8>)
    ensures
        r@ == project_kw(),
{
    let mut v: Vec<u8> = Vec::new();
    v.push(112);
    v.push(114);
    v.push(111);
    v.push(106);
    v.push(101);
    v.push(99);
    v.push(116);
    proof {
        assert(v@ =~= project_kw());
    }
    v
}

/// "define"
pub open spec fn define_kw() -> Seq<u8> {
    seq![100u8, 101u8, 102u8, 105u8, 110u8, 101u8]
}

pub fn lit_define_kw() -> (r: Vec<u8>)
    ensures
        r@ == define_kw(),
{
    let mut v: Vec<u8> = Vec::new();
    v.push(100);
    v.push(101);
    v.push(102);
    v.push(105);
    v.push(110);
    v.push(101);
    proof {
        assert(v@ =~= define_kw());
    }
    v
}

/// "_VERSION_"
pub open spec fn version_infix() -> Seq<u8> {
    seq![95u8, 86u8, 69u8, 82u8, 83u8, 73u8, 79u8, 78u8, 95u8]
}

pub fn lit_version_infix() -> (r: Vec<u8>)
    ensures
        r@ == version_infix(),
{
    let mut v: Vec<u8> = Vec::new();
    v.push(95);
    v.push(86);
    v.push(69);
    v.push(82);
    v.push(83);
    v.push(73);
    v.push(79);
    v.push(78);
    v.push(95);
    proof {
        assert(v@ =~= version_infix());
    }
    v
}

/// "_VERSION" (the token whose presence earns the scoring bonus)
pub open spec fn version_suffix_tok() -> Seq<u8> {
    seq![95u8, 86u8, 69u8, 82u8, 83u8, 73u8, 79u8, 78u8]
}

pub fn lit_version_suffix_tok() -> (r: Vec<u8>)
    ensures
        r@ == version_suffix_tok(),
{
    let mut v: Vec<u8> = Vec::new();
    v.push(95);
    v.push(86);
    v.push(69);
    v.push(82);
    v.push(83);
    v.push(73);
    v.push(79);
    v.push(78);
    proof {
        assert(v@ =~= version_suffix_tok());
    }
    v
}

/// "MAJOR"
pub open spec fn major_kw() -> Seq<u8> {
    seq![77u8, 65u8, 74u8, 79u8, 82u8]
}

pub fn lit_major_kw() -> (r: Vec<u8>)
    ensures
        r@ == major_kw(),
{
    let mut v: Vec<u8> = Vec::new();
    v.push(77);
    v.push(65);
    v.push(74);
    v.push(79);
    v.push(82);
    proof {
        assert(v@ =~= major_kw());
    }
    v
}

/// "MINOR"
pub open spec fn minor_kw() -> Seq<u8> {
    seq![77u8, 73u8, 78u8, 79u8, 82u8]
}

pub fn lit_minor_kw() -> (r: Vec<u8>)
    ensures
        r@ == minor_kw(),
{
    let mut v: Vec<u8> = Vec::new();
    v.push(77);
    v.push(73);
    v.push(78);
    v.push(79);
    v.push(82);
    proof {
        assert(v@ =~= minor_kw());
    }
    v
}

/// "PATCH"
pub open spec fn patch_kw() -> Seq<u8> {
    seq![80u8, 65u8, 84u8, 67u8, 72u8]
}

pub fn lit_patch_kw() -> (r: Vec<u8>)
    ensures
        r@ == patch_kw(),
{
    let mut v: Vec<u8> = Vec::new();
    v.push(80);
    v.push(65);
    v.push(84);
    v.push(67);
    v.push(72);
    proof {
        assert(v@ =~= patch_kw());
    }
    v
}

/// "__"
pub open spec fn dunder_tok() -> Seq<u8> {
    seq![95u8, 95u8]
}

/// "WIN32"
pub open spec fn win32_tok() -> Seq<u8> {
    seq![87u8, 73u8, 78u8, 51u8, 50u8]
}

/// "LINUX"
pub open spec fn linux_tok() -> Seq<u8> {
    seq![76u8, 73u8, 78u8, 85u8, 88u8]
}

/// "MACOS"
pub open spec fn macos_tok() -> Seq<u8> {
    seq![77u8, 65u8, 67u8, 79u8, 83u8]
}

/// "DEBUG"
pub open spec fn debug_tok() -> Seq<u8> {
    seq![68u8, 69u8, 66u8, 85u8, 71u8]
}

/// "RELEASE"
pub open spec fn release_tok() -> Seq<u8> {
    seq![82u8, 69u8, 76u8, 69u8, 65u8, 83u8, 69u8]
}

pub fn lit_dunder_tok() -> (r: Vec<u8>)
    ensures
        r@ == dunder_tok(),
{
    let mut v: Vec<u8> = Vec::new();
    v.push(95);
    v.push(95);
    proof {
        assert(v@ =~= dunder_tok());
    }
    v
}

pub fn lit_win32_tok() -> (r: Vec<u8>)
    ensures
        r@ == win32_tok(),
{
    let mut v: Vec<u8> = Vec::new();
    v.push(87);
    v.push(73);
    v.push(78);
    v.push(51);
    v.push(50);
    proof {
        assert(v@ =~= win32_tok());
    }
    v
}

pub fn lit_linux_tok() -> (r: Vec<u8>)
    ensures
        r@ == linux_tok(),
{
    let mut v: Vec<u8> = Vec::new();
    v.push(76);
    v.push(73);
    v.push(78);
    v.push(85);
    v.push(88);
    proof {
        assert(v@ =~= linux_tok());
    }
    v
}

pub fn lit_macos_tok() -> (r: Vec<u8>)
    ensures
        r@ == macos_tok(),
{
    let mut v: Vec<u8> = Vec::new();
    v.push(77);
    v.push(65);
    v.push(67);
    v.push(79);
    v.push(83);
    proof {
        assert(v@ =~= macos_tok());
    }
    v
}

pub fn lit_debug_tok() -> (r: Vec<u8>)
    ensures
        r@ == debug_tok(),
{
    let mut v: Vec<u8> = Vec::new();
    v.push(68);
    v.push(69);
    v.push(66);
    v.push(85);
    v.push(71);
    proof {
        assert(v@ =~= debug_tok());
    }
    v
}

pub fn lit_release_tok() -> (r: Vec<u8>)
    ensures
        r@ == release_tok(),
{
    let mut v: Vec<u8> = Vec::new();
    v.push(82);
    v.push(69);
    v.push(76);
    v.push(69);
    v.push(65);
    v.push(83);
    v.push(69);
    proof {
        assert(v@ =~= release_tok());
    }
    v
}

} // verus!
