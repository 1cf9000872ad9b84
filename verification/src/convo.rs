//! Naming rules of the on-disk conversation store.
//!
//! A conversation lives under the tool's data directory. The running
//! conversation is `conversation.json`; a conversation saved under a name is
//! `conversation_<name>.json`. This module holds the path arithmetic and the
//! single predicate that recognises a saved conversation's file name; the
//! caller looks the home directory up, creates directories and reads or
//! writes the files.

use vstd::prelude::*;
use vstd::string::StrSliceExecFns;
use vstd::string::StringExecFns;

verus! {

/// Whether `p` is a prefix of `s`, character by character.
pub fn has_prefix(s: &str, p: &str) -> (r: bool)
    ensures
        r == p@.is_prefix_of(s@),
{
    let plen = p.unicode_len();
    let slen = s.unicode_len();
    if plen > slen {
        return false;
    }
    let mut i: usize = 0;
    while i < plen
        invariant
            i <= plen,
            plen == p@.len(),
            slen == s@.len(),
            plen <= slen,
            forall|k: int| 0 <= k < i ==> p@[k] == s@[k],
        decreases plen - i,
    {
        if s.get_char(i) != p.get_char(i) {
            proof {
                assert(!p@.is_prefix_of(s@)) by {
                    if p@.is_prefix_of(s@) {
                        assert(p@[i as int] == s@.subrange(0, plen as int)[i as int]);
                    }
                }
            }
            return false;
        }
        i = i + 1;
    }
    proof {
        assert(p@ =~= s@.subrange(0, plen as int));
    }
    true
}

/// Whether `p` is a suffix of `s`, character by character.
pub fn has_suffix(s: &str, p: &str) -> (r: bool)
    ensures
        r == p@.is_suffix_of(s@),
{
    let plen = p.unicode_len();
    let slen = s.unicode_len();
    if plen > slen {
        return false;
    }
    let off: usize = slen - plen;
    let mut i: usize = 0;
    while i < plen
        invariant
            i <= plen,
            plen == p@.len(),
            slen == s@.len(),
            off == slen - plen,
            forall|k: int| 0 <= k < i ==> p@[k] == s@[off + k],
        decreases plen - i,
    {
        if s.get_char(off + i) != p.get_char(i) {
            proof {
                assert(!p@.is_suffix_of(s@)) by {
                    if p@.is_suffix_of(s@) {
                        assert(p@[i as int] == s@.subrange(
                            off as int,
                            slen as int,
                        )[i as int]);
                    }
                }
            }
            return false;
        }
        i = i + 1;
    }
    proof {
        assert(p@ =~= s@.subrange(off as int, slen as int));
    }
    true
}

/// The tool's data directory under a home directory.
pub fn get_data_dir(home: &str, app_name: &str) -> (r: String)
    ensures
        r@ == home@ + "/.config/"@ + app_name@,
{
    let mut s = home.to_owned();
    s.append("/.config/");
    s.append(app_name);
    s
}

/// The directory that holds every conversation file.
pub fn conversations_dir(home: &str) -> (r: String)
    ensures
        r@ == home@ + "/.config/"@ + "chatgpt_cli"@,
{
    get_data_dir(home, "chatgpt_cli")
}

/// The path of the running conversation's history file.
pub fn main_conversation_file(home: &str) -> (r: String)
    ensures
        r@ == home@ + "/.config/"@ + "chatgpt_cli"@ + "/conversation.json"@,
{
    let mut s = conversations_dir(home);
    s.append("/conversation.json");
    s
}

/// The path under which a conversation saved as `name` is stored.
pub fn conversation_file_path(home: &str, name: &str) -> (r: String)
    ensures
        r@ == home@ + "/.config/"@ + "chatgpt_cli"@ + "/conversation_"@ + name@ + ".json"@,
{
    let mut s = conversations_dir(home);
    s.append("/conversation_");
    s.append(name);
    s.append(".json");
    s
}

/// Whether a file name denotes a saved conversation: it starts with
/// `conversation_` and ends with `.json`.
pub fn is_saved_conversation(file_name: &str) -> (r: bool)
    ensures
        r == ("conversation_"@.is_prefix_of(file_name@) && ".json"@.is_suffix_of(file_name@)),
{
    has_prefix(file_name, "conversation_") && has_suffix(file_name, ".json")
}

/// The name a saved conversation was stored under: the file name with the
/// `conversation_` prefix and the `.json` suffix stripped.
pub fn conversation_display_name(file_name: &str) -> (r: String)
    requires
        "conversation_"@.is_prefix_of(file_name@),
        ".json"@.is_suffix_of(file_name@),
    ensures
        r@ == file_name@.subrange(13, file_name@.len() - 5),
{
    proof {
        reveal_strlit("conversation_");
        reveal_strlit(".json");
        let n = file_name@.len() as int;
        if n < 18 {
            let k = n - 5;
            assert(8 <= k < 13);
            assert(file_name@[k] == ".json"@[0]);
            assert(file_name@[k] == "conversation_"@[k]);
            assert("conversation_"@[8] != '.' && "conversation_"@[9] != '.'
                && "conversation_"@[10] != '.' && "conversation_"@[11] != '.'
                && "conversation_"@[12] != '.');
            assert(false);
        }
    }
    let len = file_name.unicode_len();
    let piece = file_name.substring_char(13, len - 5);
    piece.to_owned()
}

/// Saving under a name and reading the name back are inverse: the file name
/// built for `name` is recognised as a saved conversation, and stripping it
/// yields `name` again.
pub proof fn lemma_saved_name_round_trip(name: Seq<char>)
    ensures
        "conversation_"@.is_prefix_of("conversation_"@ + name + ".json"@),
        ".json"@.is_suffix_of("conversation_"@ + name + ".json"@),
        ("conversation_"@ + name + ".json"@).subrange(
            13,
            ("conversation_"@ + name + ".json"@).len() - 5,
        ) == name,
{
    reveal_strlit("conversation_");
    reveal_strlit(".json");
    let f = "conversation_"@ + name + ".json"@;
    assert("conversation_"@ =~= f.subrange(0, 13));
    assert(".json"@ =~= f.subrange(f.len() - 5, f.len() as int));
    assert(f.subrange(13, f.len() - 5) =~= name);
}

} // verus!
