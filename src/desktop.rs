use vstd::prelude::*;

use freedesktop_entry_parser::{Entry, ParseError};

use crate::choice::{views, Choice, ChoiceView};

verus! {

#[verifier::external_type_specification]
#[verifier::external_body]
pub struct ExEntry(Entry);

#[verifier::external_type_specification]
#[verifier::external_body]
pub struct ExParseError(ParseError);

/// Whether a desktop entry parser accepts `bytes`.
pub uninterp spec fn parses(bytes: Seq<u8>) -> bool;

/// The value of attribute `key` in section `section` of the desktop entry
/// that `bytes` hold, when they parse and the entry has one.
pub uninterp spec fn entry_attr(bytes: Seq<u8>, section: Seq<char>, key: Seq<char>) -> Option<Seq<char>>;

/// Relies on `freedesktop_entry_parser::Entry::parse`: whether it succeeds is
/// a function of the bytes alone.
#[verifier::external_body]
fn parse_entry_bytes(bytes: &Vec<u8>) -> (r: Result<Entry, ParseError>)
    ensures
        r is Ok == parses(bytes@),
{
    Entry::parse(bytes.clone())
}

/// Relies on `freedesktop_entry_parser::Entry::parse`, `Entry::section` and
/// `AttrSelector::attr`: the value of attribute `key` in section `section`,
/// a function of the bytes alone (attributes are looked up by name, a later
/// duplicate replacing an earlier one).
#[verifier::external_body]
fn section_attr(bytes: &Vec<u8>, section: &str, key: &str) -> (r: Option<String>)
    ensures
        opt_text(r) == entry_attr(bytes@, section@, key@),
{
    Entry::parse(bytes.clone()).ok().and_then(|e| e.section(section).attr(key).map(|v| v.to_string()))
}

/// The characters of an optional string.
pub open spec fn opt_text(v: Option<String>) -> Option<Seq<char>> {
    match v {
        Some(s) => Some(s@),
        None => None,
    }
}

/// The characters of an optional text, empty when it is absent.
pub open spec fn or_empty(v: Option<Seq<char>>) -> Seq<char> {
    match v {
        Some(s) => s,
        None => Seq::empty(),
    }
}

/// `v`, or the empty string when it is absent.
pub fn text_or_empty(v: Option<String>) -> (r: String)
    ensures
        r@ == or_empty(opt_text(v)),
{
    match v {
        Some(s) => s,
        None => String::new(),
    }
}

/// The choice for a desktop entry with the given `Name`, `Exec` and `Icon`
/// values: the name is shown, the command is the value, and an absent field
/// becomes empty.
pub fn choice_from_fields(name: Option<String>, exec: Option<String>, icon: Option<String>) -> (r: Choice)
    ensures
        r@ == (ChoiceView {
            value: or_empty(opt_text(exec)),
            name: or_empty(opt_text(name)),
            icon: or_empty(opt_text(icon)),
        }),
{
    Choice::new(text_or_empty(exec), text_or_empty(name), text_or_empty(icon))
}

/// The choice that a desktop file's contents describe: its `[Desktop Entry]`
/// section's `Name` is shown, its `Exec` is the value, its `Icon` the icon,
/// each empty when absent.
pub open spec fn desktop_view(bytes: Seq<u8>) -> ChoiceView {
    ChoiceView {
        value: or_empty(entry_attr(bytes, "Desktop Entry"@, "Exec"@)),
        name: or_empty(entry_attr(bytes, "Desktop Entry"@, "Name"@)),
        icon: or_empty(entry_attr(bytes, "Desktop Entry"@, "Icon"@)),
    }
}

/// The choice described by the `[Desktop Entry]` section of a desktop file's
/// contents, or `None` when the contents do not parse.
pub fn parse_desktop_file(bytes: Vec<u8>) -> (r: Option<Choice>)
    ensures
        r is Some == parses(bytes@),
        r matches Some(c) ==> c@ == desktop_view(bytes@),
{
    match parse_entry_bytes(&bytes) {
        Ok(_) => {
            let name = section_attr(&bytes, "Desktop Entry", "Name");
            let exec = section_attr(&bytes, "Desktop Entry", "Exec");
            let icon = section_attr(&bytes, "Desktop Entry", "Icon");
            Some(choice_from_fields(name, exec, icon))
        },
        Err(_) => None,
    }
}

/// The choices that `files` describe, in order, leaving out each file that
/// does not parse.
pub open spec fn desktop_views(files: Seq<Seq<u8>>) -> Seq<ChoiceView>
    decreases files.len(),
{
    if files.len() == 0 {
        Seq::empty()
    } else {
        let rest = desktop_views(files.drop_last());
        if parses(files.last()) {
            rest.push(desktop_view(files.last()))
        } else {
            rest
        }
    }
}

/// The byte contents of a sequence of files.
pub open spec fn contents(files: Seq<Vec<u8>>) -> Seq<Seq<u8>> {
    files.map_values(|f: Vec<u8>| f@)
}

/// One choice per desktop file that parses, in file order; a file that does
/// not parse is skipped.
pub fn desktop_choices(files: Vec<Vec<u8>>) -> (r: Vec<Choice>)
    ensures
        views(r@) == desktop_views(contents(files@)),
{
    let ghost all = contents(files@);
    let mut files = files;
    let mut out: Vec<Choice> = Vec::new();
    let ghost mut i: int = 0;
    while files.len() > 0
        invariant
            0 <= i <= all.len(),
            i + files@.len() == all.len(),
            contents(files@) == all.skip(i),
            views(out@) == desktop_views(all.take(i)),
        decreases files@.len(),
    {
        let ghost f0 = files@;
        let bytes = files.remove(0);
        proof {
            assert(contents(f0)[0] == all[i]);
            assert(all.take(i + 1).drop_last() =~= all.take(i));
            assert(all.take(i + 1).last() == bytes@);
        }
        let ghost prev = views(out@);
        match parse_desktop_file(bytes) {
            Some(c) => {
                out.push(c);
                proof {
                    assert(views(out@) =~= prev.push(c@));
                }
            },
            None => {},
        }
        proof {
            assert forall|j: int| 0 <= j < files@.len() implies contents(files@)[j] == all.skip(i + 1)[j] by {
                assert(files@[j] == f0[j + 1]);
                assert(contents(f0)[j + 1] == all[i + 1 + j]);
            }
            assert(contents(files@) =~= all.skip(i + 1));
            i = i + 1;
        }
    }
    proof {
        assert(all.take(i) =~= all);
    }
    out
}

} // verus!
