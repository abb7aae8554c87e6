//! Registry layout for the SAPIence COM CLSID and SAPI voice token: the
//! key paths, the values that registration writes, and the subtrees that
//! unregistration removes.
use vstd::prelude::*;

use crate::clsid::{
    CLSID_SAPIENCE_VOICE, VOICE_AGE, VOICE_DISPLAY_NAME, VOICE_GENDER, VOICE_LANGUAGE_LCID_HEX,
    VOICE_TOKEN_NAME, VOICE_VENDOR, VOICE_VERSION,
};
use crate::text::{hex_fixed, push_char, push_hex_fixed};

verus! {

pub const COM_CLS_FOLDER: &'static str = "SOFTWARE\\Classes\\CLSID";

pub const VOICES_TOKENS_FOLDER: &'static str = "SOFTWARE\\Microsoft\\Speech\\Voices\\Tokens";

/// The text form of the GUID `GUID::from_u128(v)`: its fields in upper-case
/// hexadecimal, 8-4-4-4-12 digits, separated by dashes.
pub open spec fn guid_text(v: nat) -> Seq<char> {
    hex_fixed(v / 79228162514264337593543950336, 8) + seq!['-'] + hex_fixed(
        v / 1208925819614629174706176,
        4,
    ) + seq!['-'] + hex_fixed(v / 18446744073709551616, 4) + seq!['-'] + hex_fixed(
        v / 281474976710656,
        4,
    ) + seq!['-'] + hex_fixed(v, 12)
}

/// The GUID's text form in braces.
pub open spec fn braced_guid(v: nat) -> Seq<char> {
    seq!['{'] + guid_text(v) + seq!['}']
}

fn push_braced_guid(s: &mut String, v: u128)
    ensures
        final(s)@ == old(s)@ + braced_guid(v as nat),
{
    push_char(s, '{');
    push_hex_fixed(s, v / 79228162514264337593543950336u128, 8);
    push_char(s, '-');
    push_hex_fixed(s, v / 1208925819614629174706176u128, 4);
    push_char(s, '-');
    push_hex_fixed(s, v / 18446744073709551616u128, 4);
    push_char(s, '-');
    push_hex_fixed(s, v / 281474976710656u128, 4);
    push_char(s, '-');
    push_hex_fixed(s, v, 12);
    push_char(s, '}');
    assert(final(s)@ =~= old(s)@ + braced_guid(v as nat));
}

/// The voice's CLSID in braces, as the registry holds it.
pub fn clsid_braced() -> (s: String)
    ensures
        s@ == braced_guid(CLSID_SAPIENCE_VOICE as nat),
{
    let mut s = String::new();
    push_braced_guid(&mut s, CLSID_SAPIENCE_VOICE);
    assert(s@ =~= braced_guid(CLSID_SAPIENCE_VOICE as nat));
    s
}

/// `SOFTWARE\Classes\CLSID\{<CLSID>}`.
pub open spec fn spec_clsid_key_path() -> Seq<char> {
    COM_CLS_FOLDER@ + seq!['\\'] + braced_guid(CLSID_SAPIENCE_VOICE as nat)
}

/// `SOFTWARE\Microsoft\Speech\Voices\Tokens\SAPIence`.
pub open spec fn spec_voice_token_path() -> Seq<char> {
    VOICES_TOKENS_FOLDER@ + seq!['\\'] + VOICE_TOKEN_NAME@
}

/// The key of the COM class.
pub fn clsid_key_path() -> (s: String)
    ensures
        s@ == spec_clsid_key_path(),
{
    let mut s = String::from_str(COM_CLS_FOLDER);
    push_char(&mut s, '\\');
    push_braced_guid(&mut s, CLSID_SAPIENCE_VOICE);
    assert(s@ =~= spec_clsid_key_path());
    s
}

/// The key of the SAPI voice token.
pub fn voice_token_path() -> (s: String)
    ensures
        s@ == spec_voice_token_path(),
{
    let mut s = String::from_str(VOICES_TOKENS_FOLDER);
    push_char(&mut s, '\\');
    s.append(VOICE_TOKEN_NAME);
    assert(s@ =~= spec_voice_token_path());
    s
}

/// One string value to write: the key (relative to the parent key it is
/// written under), the value's name (empty for the default value), and
/// its data.
pub struct RegistryValue {
    pub key: String,
    pub name: String,
    pub data: String,
}

/// A registry value as three character sequences.
pub open spec fn value_view(v: RegistryValue) -> (Seq<char>, Seq<char>, Seq<char>) {
    (v.key@, v.name@, v.data@)
}

/// The registry values as character sequences.
pub open spec fn values_view(vs: Seq<RegistryValue>) -> Seq<(Seq<char>, Seq<char>, Seq<char>)> {
    vs.map_values(|v: RegistryValue| value_view(v))
}

/// What registration writes, in order: the COM class with its in-process
/// server and threading model, then the voice token with its attributes.
pub open spec fn spec_registration(dll_path: Seq<char>) -> Seq<(Seq<char>, Seq<char>, Seq<char>)> {
    let clsid = spec_clsid_key_path();
    let inproc = clsid + seq!['\\'] + "InprocServer32"@;
    let token = spec_voice_token_path();
    let attrs = token + seq!['\\'] + "Attributes"@;
    let none = Seq::<char>::empty();
    seq![
        (clsid, none, VOICE_DISPLAY_NAME@),
        (inproc, none, dll_path),
        (inproc, "ThreadingModel"@, "Both"@),
        (token, none, VOICE_DISPLAY_NAME@),
        (token, "CLSID"@, braced_guid(CLSID_SAPIENCE_VOICE as nat)),
        (token, "LangDataPath"@, none),
        (token, "VoiceDataPath"@, none),
        (attrs, "Name"@, VOICE_TOKEN_NAME@),
        (attrs, "Vendor"@, VOICE_VENDOR@),
        (attrs, "Age"@, VOICE_AGE@),
        (attrs, "Gender"@, VOICE_GENDER@),
        (attrs, "Language"@, VOICE_LANGUAGE_LCID_HEX@),
        (attrs, "Version"@, VOICE_VERSION@),
    ]
}

fn value(key: &String, name: &str, data: &str) -> (v: RegistryValue)
    ensures
        value_view(v) == (key@, name@, data@),
{
    RegistryValue { key: key.clone(), name: String::from_str(name), data: String::from_str(data) }
}

/// The string values that registering the voice with its server at
/// `dll_path` writes, in the order they are written.
pub fn registration_values(dll_path: &str) -> (r: Vec<RegistryValue>)
    ensures
        values_view(r@) == spec_registration(dll_path@),
        r@.len() == 13,
        r@[1].key@ == spec_clsid_key_path() + seq!['\\'] + "InprocServer32"@,
        r@[1].name@ == Seq::<char>::empty(),
        r@[1].data@ == dll_path@,
{
    let clsid = clsid_key_path();
    let mut inproc = clsid.clone();
    push_char(&mut inproc, '\\');
    inproc.append("InprocServer32");
    let token = voice_token_path();
    let mut attrs = token.clone();
    push_char(&mut attrs, '\\');
    attrs.append("Attributes");
    let guid = clsid_braced();
    let mut r: Vec<RegistryValue> = Vec::new();
    r.push(value(&clsid, "", VOICE_DISPLAY_NAME));
    r.push(value(&inproc, "", dll_path));
    r.push(value(&inproc, "ThreadingModel", "Both"));
    r.push(value(&token, "", VOICE_DISPLAY_NAME));
    r.push(value(&token, "CLSID", guid.as_str()));
    r.push(value(&token, "LangDataPath", ""));
    r.push(value(&token, "VoiceDataPath", ""));
    r.push(value(&attrs, "Name", VOICE_TOKEN_NAME));
    r.push(value(&attrs, "Vendor", VOICE_VENDOR));
    r.push(value(&attrs, "Age", VOICE_AGE));
    r.push(value(&attrs, "Gender", VOICE_GENDER));
    r.push(value(&attrs, "Language", VOICE_LANGUAGE_LCID_HEX));
    r.push(value(&attrs, "Version", VOICE_VERSION));
    proof {
        reveal_strlit("");
        assert(""@ =~= Seq::<char>::empty());
        assert(values_view(r@).len() == 13);
        assert(values_view(r@)[0] == spec_registration(dll_path@)[0]);
        assert(values_view(r@)[1] == spec_registration(dll_path@)[1]);
        assert(values_view(r@)[2] == spec_registration(dll_path@)[2]);
        assert(values_view(r@)[3] == spec_registration(dll_path@)[3]);
        assert(values_view(r@)[4] == spec_registration(dll_path@)[4]);
        assert(values_view(r@)[5] == spec_registration(dll_path@)[5]);
        assert(values_view(r@)[6] == spec_registration(dll_path@)[6]);
        assert(values_view(r@)[7] == spec_registration(dll_path@)[7]);
        assert(values_view(r@)[8] == spec_registration(dll_path@)[8]);
        assert(values_view(r@)[9] == spec_registration(dll_path@)[9]);
        assert(values_view(r@)[10] == spec_registration(dll_path@)[10]);
        assert(values_view(r@)[11] == spec_registration(dll_path@)[11]);
        assert(values_view(r@)[12] == spec_registration(dll_path@)[12]);
        assert(values_view(r@) =~= spec_registration(dll_path@));
    }
    r
}

/// What unregistration removes, in order: the voice token under the
/// tokens folder, then the COM class under the classes folder, each as
/// (folder, subtree name).
pub open spec fn spec_unregistration() -> Seq<(Seq<char>, Seq<char>)> {
    seq![
        (VOICES_TOKENS_FOLDER@, VOICE_TOKEN_NAME@),
        (COM_CLS_FOLDER@, braced_guid(CLSID_SAPIENCE_VOICE as nat)),
    ]
}

/// The subtrees that unregistering the voice removes, each as the folder
/// that holds it and its name, in the order they are removed.
pub fn unregistration_targets() -> (r: Vec<(String, String)>)
    ensures
        r@.map_values(|t: (String, String)| (t.0@, t.1@)) == spec_unregistration(),
{
    let mut r: Vec<(String, String)> = Vec::new();
    r.push((String::from_str(VOICES_TOKENS_FOLDER), String::from_str(VOICE_TOKEN_NAME)));
    r.push((String::from_str(COM_CLS_FOLDER), clsid_braced()));
    assert(r@.map_values(|t: (String, String)| (t.0@, t.1@)) =~= spec_unregistration());
    r
}

/// `key` is the subtree `name` under `folder`, or a key inside it.
pub open spec fn key_under(key: Seq<char>, target: (Seq<char>, Seq<char>)) -> bool {
    let root = target.0 + seq!['\\'] + target.1;
    key == root || (root.len() + 1 <= key.len() && key.take(root.len() + 1int) == root + seq!['\\'])
}

proof fn lemma_under(root: Seq<char>, leaf: Seq<char>, target: (Seq<char>, Seq<char>))
    requires
        root == target.0 + seq!['\\'] + target.1,
    ensures
        key_under(root, target),
        key_under(root + seq!['\\'] + leaf, target),
{
    let k = root + seq!['\\'] + leaf;
    assert(k.take(root.len() + 1int) =~= root + seq!['\\']);
}

/// Unregistering removes everything registering wrote: each key that
/// registration writes a value under is one of the subtrees that
/// unregistration removes, or lies inside one.
pub proof fn lemma_unregistration_covers_registration(dll_path: Seq<char>)
    ensures
        forall|i: int|
            0 <= i < spec_registration(dll_path).len() ==> key_under(
                (#[trigger] spec_registration(dll_path)[i]).0,
                spec_unregistration()[0],
            ) || key_under(spec_registration(dll_path)[i].0, spec_unregistration()[1]),
{
    let reg = spec_registration(dll_path);
    let un = spec_unregistration();
    let clsid = spec_clsid_key_path();
    let token = spec_voice_token_path();
    lemma_under(clsid, "InprocServer32"@, un[1]);
    lemma_under(token, "Attributes"@, un[0]);
    assert forall|i: int| 0 <= i < reg.len() implies key_under(
        (#[trigger] reg[i]).0,
        un[0],
    ) || key_under(reg[i].0, un[1]) by {
        if i == 0 {
            assert(reg[i].0 == clsid);
        } else if i <= 2 {
            assert(reg[i].0 == clsid + seq!['\\'] + "InprocServer32"@);
        } else if i <= 6 {
            assert(reg[i].0 == token);
        } else {
            assert(reg[i].0 == token + seq!['\\'] + "Attributes"@);
        }
    }
}

/// The server path is written as given: the in-process server's default
/// value holds exactly `dll_path`, and no other value depends on it (two
/// registrations with different paths differ in that one value only).
pub proof fn lemma_registration_server_path(a: Seq<char>, b: Seq<char>)
    ensures
        spec_registration(a).len() == 13,
        spec_registration(a)[1] == (
            spec_clsid_key_path() + seq!['\\'] + "InprocServer32"@,
            Seq::<char>::empty(),
            a,
        ),
        forall|i: int|
            0 <= i < 13 && i != 1 ==> #[trigger] spec_registration(a)[i] == spec_registration(b)[i],
        spec_registration(a)[1].0 == spec_registration(b)[1].0,
        spec_registration(a)[1].1 == spec_registration(b)[1].1,
{
}

} // verus!
