use vstd::prelude::*;

use std::io::Cursor;
use std::io::Read;
use zip::ZipArchive;

use crate::document::{DocumentMetadata, ParseError, ParseFailure, ParsedDocument, parse_outcome};
use crate::format::DocumentFormat;
use crate::text::{
    concat_str, decimal, decimal_string, ends_with, is_prefix_of, is_suffix_of, join, join_strings,
    starts_with, strings_view,
};
use crate::xml::{bytes_eq, is_terminal, read_xml_events, xml_events, XmlEvent};

verus! {

/// The raw name of a Word text run element, `w:t`.
pub open spec fn word_text_tag() -> Seq<u8> {
    seq![119u8, 58u8, 116u8]
}

/// The raw name of a Word paragraph element, `w:p`.
pub open spec fn word_paragraph_tag() -> Seq<u8> {
    seq![119u8, 58u8, 112u8]
}

/// The raw name of a DrawingML text run element, `a:t`.
pub open spec fn drawing_text_tag() -> Seq<u8> {
    seq![97u8, 58u8, 116u8]
}

/// The pieces of a Word document body after `acc`: the unescaped character
/// data inside `w:t` elements, and a line break at the end of each `w:p`
/// element; or the message of the first error. Reading stops at the end of
/// the document.
pub open spec fn docx_text_parts(events: Seq<XmlEvent>, in_text: bool, acc: Seq<Seq<char>>) -> Result<
    Seq<Seq<char>>,
    Seq<char>,
>
    decreases events.len(),
{
    if events.len() == 0 {
        Ok(acc)
    } else {
        let rest = events.drop_first();
        match events[0] {
            XmlEvent::Start(n) => docx_text_parts(
                rest,
                if n@ == word_text_tag() {
                    true
                } else {
                    in_text
                },
                acc,
            ),
            XmlEvent::Text(t) => match t {
                Some(s) if in_text => docx_text_parts(rest, in_text, acc.push(s@)),
                _ => docx_text_parts(rest, in_text, acc),
            },
            XmlEvent::End(n) => if n@ == word_text_tag() {
                docx_text_parts(rest, false, acc)
            } else if n@ == word_paragraph_tag() {
                docx_text_parts(rest, in_text, acc.push("\n"@))
            } else {
                docx_text_parts(rest, in_text, acc)
            },
            XmlEvent::Other => docx_text_parts(rest, in_text, acc),
            XmlEvent::Eof => Ok(acc),
            XmlEvent::Error(m) => Err(m@),
        }
    }
}

/// The text of a Word document body: its pieces, concatenated.
pub open spec fn docx_text(events: Seq<XmlEvent>) -> Result<Seq<char>, Seq<char>> {
    match docx_text_parts(events, false, Seq::empty()) {
        Ok(parts) => Ok(join(parts, ""@)),
        Err(m) => Err(m),
    }
}

/// The text of a Word document body from its XML events (see `docx_text`).
pub fn text_of_docx_events(events: &[XmlEvent]) -> (r: Result<String, String>)
    ensures
        match r {
            Ok(t) => docx_text(events@) == Ok::<Seq<char>, Seq<char>>(t@),
            Err(m) => docx_text(events@) == Err::<Seq<char>, Seq<char>>(m@),
        },
{
    let text_tag: [u8; 3] = [119, 58, 116];
    let paragraph_tag: [u8; 3] = [119, 58, 112];
    assert(text_tag@ =~= word_text_tag());
    assert(paragraph_tag@ =~= word_paragraph_tag());
    let mut in_text = false;
    let mut parts: Vec<String> = Vec::new();
    let n = events.len();
    let mut i: usize = 0;
    assert(events@.skip(0) =~= events@);
    assert(strings_view(parts@) =~= Seq::<Seq<char>>::empty());
    while i < n
        invariant
            n == events@.len(),
            i <= n,
            text_tag@ == word_text_tag(),
            paragraph_tag@ == word_paragraph_tag(),
            docx_text_parts(events@, false, Seq::empty()) == docx_text_parts(
                events@.skip(i as int),
                in_text,
                strings_view(parts@),
            ),
        decreases n - i,
    {
        let ghost rest = events@.skip(i as int);
        assert(rest[0] == events@[i as int]);
        assert(rest.drop_first() =~= events@.skip(i + 1));
        let ghost old_parts = parts@;
        match &events[i] {
            XmlEvent::Start(name) => {
                if bytes_eq(name.as_slice(), text_tag.as_slice()) {
                    in_text = true;
                }
            },
            XmlEvent::Text(t) => {
                if in_text {
                    match t {
                        Some(s) => {
                            parts.push(s.clone());
                            assert(strings_view(parts@) =~= strings_view(old_parts).push(s@));
                        },
                        None => {},
                    }
                }
            },
            XmlEvent::End(name) => {
                if bytes_eq(name.as_slice(), text_tag.as_slice()) {
                    in_text = false;
                } else if bytes_eq(name.as_slice(), paragraph_tag.as_slice()) {
                    parts.push(String::from_str("\n"));
                    assert(strings_view(parts@) =~= strings_view(old_parts).push("\n"@));
                }
            },
            XmlEvent::Other => {},
            XmlEvent::Eof => {
                return Ok(join_strings(&parts, ""));
            },
            XmlEvent::Error(m) => {
                return Err(m.clone());
            },
        }
        i = i + 1;
    }
    assert(events@.skip(n as int) =~= Seq::<XmlEvent>::empty());
    Ok(join_strings(&parts, ""))
}

/// An event that starts an element with the raw name `tag`.
pub open spec fn starts_element(e: XmlEvent, tag: Seq<u8>) -> bool {
    e matches XmlEvent::Start(n) && n@ == tag
}

/// An event that ends an element with the raw name `tag`.
pub open spec fn ends_element(e: XmlEvent, tag: Seq<u8>) -> bool {
    e matches XmlEvent::End(n) && n@ == tag
}

/// Whether the event at `i` comes after a start tag named `tag` with no end
/// tag named `tag` in between.
pub open spec fn inside_element(events: Seq<XmlEvent>, i: int, tag: Seq<u8>) -> bool {
    exists|j: int|
        0 <= j < i && #[trigger] starts_element(events[j], tag) && forall|k: int|
            j < k < i ==> !ends_element(#[trigger] events[k], tag)
}

/// What the event at `i` adds to a Word document's text: the character data
/// of a text event inside a `w:t` element, whole and unchanged (white space
/// included), and a line break for the end of a `w:p` paragraph.
pub open spec fn word_piece(events: Seq<XmlEvent>, i: int) -> Seq<char> {
    match events[i] {
        XmlEvent::Text(Some(s)) => if inside_element(events, i, seq![119u8, 58u8, 116u8]) {
            s@
        } else {
            Seq::empty()
        },
        XmlEvent::End(n) => if n@ == seq![119u8, 58u8, 112u8] {
            "\n"@
        } else {
            Seq::empty()
        },
        _ => Seq::empty(),
    }
}

/// What each event adds to a Word document's text, in order.
pub open spec fn word_pieces(events: Seq<XmlEvent>) -> Seq<Seq<char>> {
    Seq::new(events.len(), |i: int| word_piece(events, i))
}

proof fn lemma_inside_element_step(events: Seq<XmlEvent>, i: int, t: Seq<u8>)
    requires
        0 <= i < events.len(),
    ensures
        inside_element(events, i + 1, t) == if starts_element(events[i], t) {
            true
        } else if ends_element(events[i], t) {
            false
        } else {
            inside_element(events, i, t)
        },
{
    if starts_element(events[i], t) {
        assert(forall|k: int| i < k < i + 1 ==> !ends_element(#[trigger] events[k], t));
        assert(inside_element(events, i + 1, t));
    } else if ends_element(events[i], t) {
        if inside_element(events, i + 1, t) {
            let j = choose|j: int|
                0 <= j < i + 1 && #[trigger] starts_element(events[j], t) && forall|k: int|
                    j < k < i + 1 ==> !ends_element(#[trigger] events[k], t);
            if j < i {
                assert(!ends_element(events[i], t));
            }
        }
    } else {
        if inside_element(events, i + 1, t) {
            let j = choose|j: int|
                0 <= j < i + 1 && #[trigger] starts_element(events[j], t) && forall|k: int|
                    j < k < i + 1 ==> !ends_element(#[trigger] events[k], t);
            assert(j < i);
            assert(forall|k: int| j < k < i ==> !ends_element(#[trigger] events[k], t));
            assert(inside_element(events, i, t));
        }
        if inside_element(events, i, t) {
            let j = choose|j: int|
                0 <= j < i && #[trigger] starts_element(events[j], t) && forall|k: int|
                    j < k < i ==> !ends_element(#[trigger] events[k], t);
            assert(forall|k: int| j < k < i + 1 ==> !ends_element(#[trigger] events[k], t));
            assert(inside_element(events, i + 1, t));
        }
    }
}

proof fn lemma_join_without_separator(parts: Seq<Seq<char>>)
    ensures
        join(parts, ""@) == parts.flatten_alt(),
    decreases parts.len(),
{
    reveal_strlit("");
    assert(""@ =~= Seq::<char>::empty());
    if parts.len() == 1 {
        let e = parts.drop_last();
        assert(e.len() == 0);
        assert(e.flatten_alt() == Seq::<char>::empty());
        assert(parts.flatten_alt() == e.flatten_alt() + parts.last());
        assert(Seq::<char>::empty() + parts[0] =~= parts[0]);
    } else if parts.len() > 1 {
        lemma_join_without_separator(parts.drop_last());
        assert(parts.flatten_alt() == parts.drop_last().flatten_alt() + parts.last());
        assert(join(parts.drop_last(), ""@) + ""@ =~= join(parts.drop_last(), ""@));
    }
}

proof fn lemma_docx_prefix(pre: Seq<XmlEvent>, tail: Seq<XmlEvent>, i: int) -> (acc: Seq<
    Seq<char>,
>)
    requires
        0 <= i <= pre.len(),
        forall|k: int| 0 <= k < pre.len() ==> !is_terminal(#[trigger] pre[k]),
    ensures
        docx_text_parts(pre + tail, false, Seq::empty()) == docx_text_parts(
            (pre + tail).skip(i),
            inside_element(pre, i, word_text_tag()),
            acc,
        ),
        acc.flatten_alt() == word_pieces(pre).take(i).flatten_alt(),
    decreases i,
{
    if i == 0 {
        assert((pre + tail).skip(0) =~= pre + tail);
        assert(word_pieces(pre).take(0) =~= Seq::<Seq<char>>::empty());
        Seq::empty()
    } else {
        let a = lemma_docx_prefix(pre, tail, i - 1);
        let s = (pre + tail).skip(i - 1);
        assert(s[0] == pre[i - 1]);
        assert(s.drop_first() =~= (pre + tail).skip(i));
        assert(!is_terminal(pre[i - 1]));
        lemma_inside_element_step(pre, i - 1, word_text_tag());
        let ps = word_pieces(pre);
        assert(ps.take(i).drop_last() =~= ps.take(i - 1));
        assert(ps.take(i).last() == word_piece(pre, i - 1));
        let acc = match pre[i - 1] {
            XmlEvent::Text(Some(t)) => if inside_element(pre, i - 1, word_text_tag()) {
                a.push(t@)
            } else {
                a
            },
            XmlEvent::End(n) => if n@ == word_text_tag() {
                a
            } else if n@ == word_paragraph_tag() {
                a.push("\n"@)
            } else {
                a
            },
            _ => a,
        };
        assert(word_text_tag() != word_paragraph_tag()) by {
            assert(word_text_tag()[2] != word_paragraph_tag()[2]);
        }
        if acc == a {
            assert(a.flatten_alt() + word_piece(pre, i - 1) =~= a.flatten_alt()) by {
                assert(word_piece(pre, i - 1) =~= Seq::<char>::empty());
            }
        } else {
            assert(acc.drop_last() =~= a);
        }
        acc
    }
}

/// The text of a Word document body is every character of the character
/// data inside its `w:t` elements, unchanged and in order (white space
/// included), with a line break at the end of each `w:p` paragraph, up to the
/// end of the document; an error before the end fails with its message.
pub proof fn lemma_docx_text_is_word_runs(pre: Seq<XmlEvent>, tail: Seq<XmlEvent>)
    requires
        forall|k: int| 0 <= k < pre.len() ==> !is_terminal(#[trigger] pre[k]),
    ensures
        tail.len() == 0 ==> docx_text(pre + tail) == Ok::<Seq<char>, Seq<char>>(
            word_pieces(pre).flatten(),
        ),
        tail.len() > 0 && tail[0] is Eof ==> docx_text(pre + tail) == Ok::<Seq<char>, Seq<char>>(
            word_pieces(pre).flatten(),
        ),
        tail.len() > 0 ==> (tail[0] matches XmlEvent::Error(m) ==> docx_text(pre + tail) == Err::<
            Seq<char>,
            Seq<char>,
        >(m@)),
{
    let acc = lemma_docx_prefix(pre, tail, pre.len() as int);
    assert((pre + tail).skip(pre.len() as int) =~= tail);
    assert(word_pieces(pre).take(pre.len() as int) =~= word_pieces(pre));
    lemma_join_without_separator(acc);
    word_pieces(pre).lemma_flatten_and_flatten_alt_are_equivalent();
}

/// The unescaped character data inside elements named `tag`, after `acc`.
/// Reading stops at the end of the document or at the first error.
pub open spec fn ooxml_text_parts(
    events: Seq<XmlEvent>,
    tag: Seq<u8>,
    in_target: bool,
    acc: Seq<Seq<char>>,
) -> Seq<Seq<char>>
    decreases events.len(),
{
    if events.len() == 0 {
        acc
    } else {
        let rest = events.drop_first();
        match events[0] {
            XmlEvent::Start(n) => ooxml_text_parts(
                rest,
                tag,
                if n@ == tag {
                    true
                } else {
                    in_target
                },
                acc,
            ),
            XmlEvent::Text(t) => match t {
                Some(s) if in_target => ooxml_text_parts(rest, tag, in_target, acc.push(s@)),
                _ => ooxml_text_parts(rest, tag, in_target, acc),
            },
            XmlEvent::End(n) => ooxml_text_parts(
                rest,
                tag,
                if n@ == tag {
                    false
                } else {
                    in_target
                },
                acc,
            ),
            XmlEvent::Other => ooxml_text_parts(rest, tag, in_target, acc),
            XmlEvent::Eof => acc,
            XmlEvent::Error(_) => acc,
        }
    }
}

/// The text inside the elements named `tag`, pieces separated by spaces.
pub open spec fn ooxml_text(events: Seq<XmlEvent>, tag: Seq<u8>) -> Seq<char> {
    join(ooxml_text_parts(events, tag, false, Seq::empty()), " "@)
}

/// The text inside the elements named `tag` from XML events (see `ooxml_text`).
pub fn text_of_ooxml_events(events: &[XmlEvent], tag: &[u8]) -> (r: String)
    ensures
        r@ == ooxml_text(events@, tag@),
{
    let mut in_target = false;
    let mut parts: Vec<String> = Vec::new();
    let n = events.len();
    let mut i: usize = 0;
    assert(events@.skip(0) =~= events@);
    assert(strings_view(parts@) =~= Seq::<Seq<char>>::empty());
    while i < n
        invariant
            n == events@.len(),
            i <= n,
            ooxml_text_parts(events@, tag@, false, Seq::empty()) == ooxml_text_parts(
                events@.skip(i as int),
                tag@,
                in_target,
                strings_view(parts@),
            ),
        decreases n - i,
    {
        let ghost rest = events@.skip(i as int);
        assert(rest[0] == events@[i as int]);
        assert(rest.drop_first() =~= events@.skip(i + 1));
        let ghost old_parts = parts@;
        match &events[i] {
            XmlEvent::Start(name) => {
                if bytes_eq(name.as_slice(), tag) {
                    in_target = true;
                }
            },
            XmlEvent::Text(t) => {
                if in_target {
                    match t {
                        Some(s) => {
                            parts.push(s.clone());
                            assert(strings_view(parts@) =~= strings_view(old_parts).push(s@));
                        },
                        None => {},
                    }
                }
            },
            XmlEvent::End(name) => {
                if bytes_eq(name.as_slice(), tag) {
                    in_target = false;
                }
            },
            XmlEvent::Other => {},
            XmlEvent::Eof => {
                return join_strings(&parts, " ");
            },
            XmlEvent::Error(_) => {
                return join_strings(&parts, " ");
            },
        }
        i = i + 1;
    }
    assert(events@.skip(n as int) =~= Seq::<XmlEvent>::empty());
    join_strings(&parts, " ")
}

/// The character data of the text event at `i`, when it lies inside an
/// element named `tag`.
pub open spec fn element_text_at(events: Seq<XmlEvent>, tag: Seq<u8>, i: int) -> Option<Seq<char>> {
    match events[i] {
        XmlEvent::Text(Some(s)) => if inside_element(events, i, tag) {
            Some(s@)
        } else {
            None
        },
        _ => None,
    }
}

/// The character data inside elements named `tag` among the first `j`
/// events, one piece per text event, in order.
pub open spec fn element_texts_before(events: Seq<XmlEvent>, tag: Seq<u8>, j: nat) -> Seq<
    Seq<char>,
> {
    Seq::new(j, |i: int| i).filter_map(|i: int| element_text_at(events, tag, i))
}

proof fn lemma_ooxml_prefix(pre: Seq<XmlEvent>, tail: Seq<XmlEvent>, tag: Seq<u8>, i: nat)
    requires
        i <= pre.len(),
        forall|k: int| 0 <= k < pre.len() ==> !is_terminal(#[trigger] pre[k]),
    ensures
        ooxml_text_parts(pre + tail, tag, false, Seq::empty()) == ooxml_text_parts(
            (pre + tail).skip(i as int),
            tag,
            inside_element(pre, i as int, tag),
            element_texts_before(pre, tag, i),
        ),
    decreases i,
{
    if i == 0 {
        assert((pre + tail).skip(0) =~= pre + tail);
        assert(Seq::new(0, |k: int| k) =~= Seq::<int>::empty());
        assert(element_texts_before(pre, tag, 0) =~= Seq::<Seq<char>>::empty());
    } else {
        let k = (i - 1) as nat;
        lemma_ooxml_prefix(pre, tail, tag, k);
        let s = (pre + tail).skip(k as int);
        assert(s[0] == pre[k as int]);
        assert(s.drop_first() =~= (pre + tail).skip(i as int));
        assert(!is_terminal(pre[k as int]));
        lemma_inside_element_step(pre, k as int, tag);
        let ids = Seq::new(i, |m: int| m);
        assert(ids.drop_last() =~= Seq::new(k, |m: int| m));
        assert(ids.last() == k as int);
        let prev = element_texts_before(pre, tag, k);
        match element_text_at(pre, tag, k as int) {
            Some(t) => {
                assert(prev.push(t) =~= prev + seq![t]);
            },
            None => {},
        }
    }
}

/// The text inside the elements named `tag` is the character data of every
/// text event that lies inside such an element, unchanged and in order, one
/// piece per event, separated by single spaces; reading stops at the end of
/// the document or at an error.
pub proof fn lemma_ooxml_text_is_element_data(pre: Seq<XmlEvent>, tail: Seq<XmlEvent>, tag: Seq<u8>)
    requires
        forall|k: int| 0 <= k < pre.len() ==> !is_terminal(#[trigger] pre[k]),
        tail.len() == 0 || is_terminal(tail[0]),
    ensures
        ooxml_text(pre + tail, tag) == join(element_texts_before(pre, tag, pre.len()), " "@),
{
    lemma_ooxml_prefix(pre, tail, tag, pre.len());
    assert((pre + tail).skip(pre.len() as int) =~= tail);
}

#[verifier::external_type_specification]
#[verifier::external_body]
#[verifier::reject_recursive_types(T)]
pub struct ExCursor<T>(Cursor<T>);

#[verifier::external_type_specification]
#[verifier::external_body]
#[verifier::reject_recursive_types(R)]
pub struct ExZipArchive<R>(ZipArchive<R>);

/// What reading one entry of a zip archive to a string gave.
pub enum EntryRead {
    /// The entry's text.
    Text(Seq<char>),
    /// The entry could not be found or opened; the message of the zip error.
    LookupFailed(Seq<char>),
    /// The entry's data could not be read as UTF-8 text; the message of the
    /// I/O error.
    ReadFailed(Seq<char>),
}

/// Why reading an entry failed.
pub enum EntryError {
    /// The entry could not be found or opened.
    Lookup(String),
    /// The entry's data could not be read as UTF-8 text.
    Read(String),
}

/// A read of an entry, by the characters it gave.
pub open spec fn entry_read(r: Result<String, EntryError>) -> EntryRead {
    match r {
        Ok(t) => EntryRead::Text(t@),
        Err(EntryError::Lookup(m)) => EntryRead::LookupFailed(m@),
        Err(EntryError::Read(m)) => EntryRead::ReadFailed(m@),
    }
}

/// The bytes a zip archive was opened on.
pub uninterp spec fn archive_bytes(archive: ZipArchive<Cursor<&[u8]>>) -> Seq<u8>;

/// The message of the error `ZipArchive::new` gives for bytes, or None when
/// it opens them.
pub uninterp spec fn zip_open_error(bytes: Seq<u8>) -> Option<Seq<char>>;

/// The number of entries of the archive in the bytes.
pub uninterp spec fn zip_entry_count(bytes: Seq<u8>) -> nat;

/// What `ZipArchive::by_index` gives for an entry: its name, or the message
/// of the zip error.
pub uninterp spec fn zip_entry_name(bytes: Seq<u8>, index: nat) -> Result<Seq<char>, Seq<char>>;

/// What opening an entry by index and reading it to a string gives.
pub uninterp spec fn zip_indexed_entry(bytes: Seq<u8>, index: nat) -> EntryRead;

/// What opening an entry by name and reading it to a string gives.
pub uninterp spec fn zip_named_entry(bytes: Seq<u8>, name: Seq<char>) -> EntryRead;

/// Calls `ZipArchive::new` on a `std::io::Cursor` over the bytes. Claims the
/// outcome is the one `zip_open_error` names for the bytes and that the
/// archive reads those bytes.
#[verifier::external_body]
fn open_zip(bytes: &[u8]) -> (r: Result<ZipArchive<Cursor<&[u8]>>, String>)
    ensures
        match r {
            Ok(a) => zip_open_error(bytes@) is None && archive_bytes(a) == bytes@,
            Err(m) => zip_open_error(bytes@) == Some(m@),
        },
{
    match ZipArchive::new(Cursor::new(bytes)) {
        Ok(a) => Ok(a),
        Err(e) => Err(e.to_string()),
    }
}

/// Calls `ZipArchive::len`. Claims the result is the entry count of the
/// archive's bytes.
#[verifier::external_body]
fn zip_len(archive: &ZipArchive<Cursor<&[u8]>>) -> (n: usize)
    ensures
        n == zip_entry_count(archive_bytes(*archive)),
{
    archive.len()
}

/// Calls `ZipArchive::by_index` and `ZipFile::name`. Claims the outcome is
/// the one `zip_entry_name` names; the archive keeps reading the same bytes.
#[verifier::external_body]
fn zip_entry_name_at(archive: &mut ZipArchive<Cursor<&[u8]>>, index: usize) -> (r: Result<
    String,
    String,
>)
    ensures
        archive_bytes(*final(archive)) == archive_bytes(*old(archive)),
        match r {
            Ok(n) => zip_entry_name(archive_bytes(*old(archive)), index as nat) == Ok::<
                Seq<char>,
                Seq<char>,
            >(n@),
            Err(m) => zip_entry_name(archive_bytes(*old(archive)), index as nat) == Err::<
                Seq<char>,
                Seq<char>,
            >(m@),
        },
{
    match archive.by_index(index) {
        Ok(f) => Ok(f.name().to_string()),
        Err(e) => Err(e.to_string()),
    }
}

/// Calls `ZipArchive::by_index` and reads the entry with
/// `Read::read_to_string`. Claims the outcome is the one `zip_indexed_entry`
/// names, that it fails to find the entry exactly when `by_index` fails in
/// `zip_entry_name` (with the same message), and that the archive keeps
/// reading the same bytes.
#[verifier::external_body]
fn zip_entry_text_at(archive: &mut ZipArchive<Cursor<&[u8]>>, index: usize) -> (r: Result<
    String,
    EntryError,
>)
    ensures
        archive_bytes(*final(archive)) == archive_bytes(*old(archive)),
        entry_read(r) == zip_indexed_entry(archive_bytes(*old(archive)), index as nat),
        match zip_entry_name(archive_bytes(*old(archive)), index as nat) {
            Ok(_) => !(entry_read(r) is LookupFailed),
            Err(m) => entry_read(r) == EntryRead::LookupFailed(m),
        },
{
    match archive.by_index(index) {
        Ok(mut f) => {
            let mut s = String::new();
            match f.read_to_string(&mut s) {
                Ok(_) => Ok(s),
                Err(e) => Err(EntryError::Read(e.to_string())),
            }
        },
        Err(e) => Err(EntryError::Lookup(e.to_string())),
    }
}

/// Calls `ZipArchive::by_name` and reads the entry with
/// `Read::read_to_string`. Claims the outcome is the one `zip_named_entry`
/// names; the archive keeps reading the same bytes.
#[verifier::external_body]
fn zip_named_text(archive: &mut ZipArchive<Cursor<&[u8]>>, name: &str) -> (r: Result<
    String,
    EntryError,
>)
    ensures
        archive_bytes(*final(archive)) == archive_bytes(*old(archive)),
        entry_read(r) == zip_named_entry(archive_bytes(*old(archive)), name@),
{
    match archive.by_name(name) {
        Ok(mut f) => {
            let mut s = String::new();
            match f.read_to_string(&mut s) {
                Ok(_) => Ok(s),
                Err(e) => Err(EntryError::Read(e.to_string())),
            }
        },
        Err(e) => Err(EntryError::Lookup(e.to_string())),
    }
}

/// The text of a Word document body given as XML text.
fn extract_docx_text(xml: &str) -> (r: Result<String, ParseError>)
    ensures
        match r {
            Ok(t) => docx_text(xml_events(xml@)) == Ok::<Seq<char>, Seq<char>>(t@),
            Err(e) => e@ matches ParseFailure::Format(msg) && docx_text(xml_events(xml@)) matches Err(
                m,
            ) && msg == "XML parse error: "@ + m,
        },
{
    let events = read_xml_events(xml);
    match text_of_docx_events(events.as_slice()) {
        Ok(t) => Ok(t),
        Err(m) => Err(ParseError::Format(concat_str("XML parse error: ", m.as_str()))),
    }
}

/// The text inside the elements named `tag` of an XML text.
fn extract_ooxml_text(xml: &str, tag: &[u8]) -> (r: String)
    ensures
        r@ == ooxml_text(xml_events(xml@), tag@),
{
    let events = read_xml_events(xml);
    text_of_ooxml_events(events.as_slice(), tag)
}

/// The outcome of parsing bytes as a Word (DOCX) document: the text of the
/// archive's `word/document.xml` entry.
pub open spec fn docx_document(bytes: Seq<u8>) -> Result<(Seq<char>, DocumentMetadata), ParseFailure> {
    match zip_open_error(bytes) {
        Some(m) => Err(ParseFailure::Format("Not a valid DOCX/ZIP: "@ + m)),
        None => match zip_named_entry(bytes, "word/document.xml"@) {
            EntryRead::LookupFailed(m) => Err(ParseFailure::Format("Missing word/document.xml: "@ + m)),
            EntryRead::ReadFailed(m) => Err(ParseFailure::Io(m)),
            EntryRead::Text(xml) => match docx_text(xml_events(xml)) {
                Ok(t) => Ok((t, DocumentMetadata { format: DocumentFormat::Docx, slide_count: None })),
                Err(m) => Err(ParseFailure::Format("XML parse error: "@ + m)),
            },
        },
    }
}

/// A Word document's text is the text of its `word/document.xml` part, and
/// is reported as DOCX with no slide count.
pub proof fn lemma_docx_reads_document_part(bytes: Seq<u8>)
    ensures
        docx_document(bytes) matches Ok((t, m)) ==> ({
            &&& zip_open_error(bytes) is None
            &&& zip_named_entry(bytes, "word/document.xml"@) matches EntryRead::Text(xml)
                && docx_text(xml_events(xml)) == Ok::<Seq<char>, Seq<char>>(t)
            &&& m.format == DocumentFormat::Docx
            &&& m.slide_count is None
        }),
{
}

/// Parses a Word (DOCX) document.
pub fn parse_docx(bytes: &[u8]) -> (r: Result<ParsedDocument, ParseError>)
    ensures
        parse_outcome(r) == docx_document(bytes@),
{
    let mut archive = match open_zip(bytes) {
        Ok(a) => a,
        Err(m) => {
            return Err(ParseError::Format(concat_str("Not a valid DOCX/ZIP: ", m.as_str())));
        },
    };
    let xml_content = match zip_named_text(&mut archive, "word/document.xml") {
        Ok(x) => x,
        Err(EntryError::Lookup(m)) => {
            return Err(
                ParseError::Format(concat_str("Missing word/document.xml: ", m.as_str())),
            );
        },
        Err(EntryError::Read(m)) => {
            return Err(ParseError::Io(m));
        },
    };
    let text = match extract_docx_text(xml_content.as_str()) {
        Ok(t) => t,
        Err(e) => {
            return Err(e);
        },
    };
    Ok(
        ParsedDocument {
            text,
            metadata: DocumentMetadata { format: DocumentFormat::Docx, slide_count: None },
        },
    )
}

/// Whether an archive entry holds a slide: `ppt/slides/slide*.xml`.
pub open spec fn is_slide_entry(name: Seq<char>) -> bool {
    is_prefix_of("ppt/slides/slide"@, name) && is_suffix_of(".xml"@, name)
}

/// The texts of the slides among the entries from `index` on, after `acc`;
/// or the first failure.
pub open spec fn pptx_slide_texts(bytes: Seq<u8>, index: nat, acc: Seq<Seq<char>>) -> Result<
    Seq<Seq<char>>,
    ParseFailure,
>
    decreases zip_entry_count(bytes) - index,
{
    if index >= zip_entry_count(bytes) {
        Ok(acc)
    } else {
        match zip_entry_name(bytes, index) {
            Err(m) => Err(ParseFailure::Format("ZIP entry error: "@ + m)),
            Ok(name) => if is_slide_entry(name) {
                match zip_indexed_entry(bytes, index) {
                    EntryRead::Text(xml) => pptx_slide_texts(
                        bytes,
                        index + 1,
                        acc.push(ooxml_text(xml_events(xml), drawing_text_tag())),
                    ),
                    EntryRead::LookupFailed(m) => Err(ParseFailure::Format("ZIP entry error: "@ + m)),
                    EntryRead::ReadFailed(m) => Err(ParseFailure::Io(m)),
                }
            } else {
                pptx_slide_texts(bytes, index + 1, acc)
            },
        }
    }
}

/// The section of the text for the slide numbered `number`.
pub open spec fn slide_section(number: nat, text: Seq<char>) -> Seq<char> {
    "--- Slide "@ + decimal(number) + " ---\n"@ + text
}

/// The sections for the slides, numbered from 1 in archive order.
pub open spec fn slide_sections(texts: Seq<Seq<char>>) -> Seq<Seq<char>> {
    Seq::new(texts.len(), |k: int| slide_section((k + 1) as nat, texts[k]))
}

/// The outcome of parsing bytes as a PowerPoint (PPTX) document: one section
/// per slide, separated by blank lines, and the number of slides.
pub open spec fn pptx_document(bytes: Seq<u8>) -> Result<(Seq<char>, DocumentMetadata), ParseFailure> {
    match zip_open_error(bytes) {
        Some(m) => Err(ParseFailure::Format("Not a valid PPTX/ZIP: "@ + m)),
        None => match pptx_slide_texts(bytes, 0, Seq::empty()) {
            Ok(texts) => Ok(
                (
                    join(slide_sections(texts), "\n\n"@),
                    DocumentMetadata {
                        format: DocumentFormat::Pptx,
                        slide_count: Some(texts.len() as usize),
                    },
                ),
            ),
            Err(e) => Err(e),
        },
    }
}

/// The text a slide entry of a PowerPoint archive contributes: for the entry
/// at `i` whose name starts with `ppt/slides/slide` and ends with `.xml` and
/// which reads as text, the character data of its `a:t` elements; nothing
/// for any other entry.
pub open spec fn slide_text_at(bytes: Seq<u8>, i: int) -> Option<Seq<char>> {
    match zip_entry_name(bytes, i as nat) {
        Ok(name) => if is_prefix_of("ppt/slides/slide"@, name) && is_suffix_of(".xml"@, name) {
            match zip_indexed_entry(bytes, i as nat) {
                EntryRead::Text(xml) => Some(ooxml_text(xml_events(xml), seq![97u8, 58u8, 116u8])),
                _ => None,
            }
        } else {
            None
        },
        Err(_) => None,
    }
}

/// The texts of the slide entries among the first `j` entries, in archive
/// order.
pub open spec fn slide_texts_before(bytes: Seq<u8>, j: nat) -> Seq<Seq<char>> {
    Seq::new(j, |i: int| i).filter_map(|i: int| slide_text_at(bytes, i))
}

/// The entry at `i` has a name and, when it is a slide entry, reads as text.
pub open spec fn entry_readable(bytes: Seq<u8>, i: int) -> bool {
    match zip_entry_name(bytes, i as nat) {
        Ok(name) => is_prefix_of("ppt/slides/slide"@, name) && is_suffix_of(".xml"@, name)
            ==> zip_indexed_entry(bytes, i as nat) is Text,
        Err(_) => false,
    }
}

proof fn lemma_pptx_scan(bytes: Seq<u8>, j: nat)
    requires
        j <= zip_entry_count(bytes),
    ensures
        pptx_slide_texts(bytes, 0, Seq::empty()) is Ok ==> {
            &&& pptx_slide_texts(bytes, 0, Seq::empty()) == pptx_slide_texts(
                bytes,
                j,
                slide_texts_before(bytes, j),
            )
            &&& forall|i: int| 0 <= i < j ==> #[trigger] entry_readable(bytes, i)
        },
    decreases j,
{
    if j == 0 {
        assert(Seq::new(0, |i: int| i) =~= Seq::<int>::empty());
        assert(slide_texts_before(bytes, 0) =~= Seq::<Seq<char>>::empty());
    } else {
        let k = (j - 1) as nat;
        lemma_pptx_scan(bytes, k);
        let ids = Seq::new(j, |i: int| i);
        assert(ids.drop_last() =~= Seq::new(k, |i: int| i));
        assert(ids.last() == k as int);
        let prev = slide_texts_before(bytes, k);
        match slide_text_at(bytes, k as int) {
            Some(t) => {
                assert(prev.push(t) =~= prev + seq![t]);
            },
            None => {},
        }
    }
}

/// The slides of a PowerPoint document are exactly the archive entries whose
/// names start with `ppt/slides/slide` and end with `.xml` (not layouts,
/// masters or any other part), in archive order: a successful parse counts
/// those and no others, and gives one section per slide, numbered from 1 and
/// separated by blank lines.
pub proof fn lemma_pptx_slides_are_slide_entries(bytes: Seq<u8>)
    ensures
        pptx_document(bytes) matches Ok((text, meta)) ==> ({
            let texts = slide_texts_before(bytes, zip_entry_count(bytes));
            &&& meta.format == DocumentFormat::Pptx
            &&& meta.slide_count == Some(texts.len() as usize)
            &&& text == join(
                Seq::new(
                    texts.len(),
                    |k: int| "--- Slide "@ + decimal((k + 1) as nat) + " ---\n"@ + texts[k],
                ),
                "\n\n"@,
            )
            &&& forall|i: int| 0 <= i < zip_entry_count(bytes) ==> #[trigger] entry_readable(bytes, i)
        }),
{
    let n = zip_entry_count(bytes);
    lemma_pptx_scan(bytes, n);
    let texts = slide_texts_before(bytes, n);
    assert(slide_sections(texts) =~= Seq::new(
        texts.len(),
        |k: int| "--- Slide "@ + decimal((k + 1) as nat) + " ---\n"@ + texts[k],
    ));
}

/// Parses a PowerPoint (PPTX) document.
pub fn parse_pptx(bytes: &[u8]) -> (r: Result<ParsedDocument, ParseError>)
    ensures
        parse_outcome(r) == pptx_document(bytes@),
{
    let mut archive = match open_zip(bytes) {
        Ok(a) => a,
        Err(m) => {
            return Err(ParseError::Format(concat_str("Not a valid PPTX/ZIP: ", m.as_str())));
        },
    };
    let ghost src = bytes@;
    let tag: [u8; 3] = [97, 58, 116];
    assert(tag@ =~= drawing_text_tag());
    let mut slides: Vec<String> = Vec::new();
    let n = zip_len(&archive);
    assert(strings_view(slides@) =~= Seq::<Seq<char>>::empty());
    for i in 0..n
        invariant
            src == bytes@,
            archive_bytes(archive) == src,
            zip_open_error(src) is None,
            n == zip_entry_count(src),
            tag@ == drawing_text_tag(),
            slides@.len() <= i,
            pptx_slide_texts(src, 0, Seq::empty()) == pptx_slide_texts(
                src,
                i as nat,
                strings_view(slides@),
            ),
    {
        let name = match zip_entry_name_at(&mut archive, i) {
            Ok(nm) => nm,
            Err(m) => {
                return Err(ParseError::Format(concat_str("ZIP entry error: ", m.as_str())));
            },
        };
        if starts_with(name.as_str(), "ppt/slides/slide") && ends_with(name.as_str(), ".xml") {
            let xml_content = match zip_entry_text_at(&mut archive, i) {
                Ok(x) => x,
                Err(EntryError::Lookup(m)) => {
                    return Err(ParseError::Format(concat_str("ZIP entry error: ", m.as_str())));
                },
                Err(EntryError::Read(m)) => {
                    return Err(ParseError::Io(m));
                },
            };
            let text = extract_ooxml_text(xml_content.as_str(), tag.as_slice());
            let ghost old_slides = slides@;
            slides.push(text);
            assert(strings_view(slides@) =~= strings_view(old_slides).push(text@));
        }
    }
    let slide_count = slides.len();
    let ghost texts = strings_view(slides@);
    let mut sections: Vec<String> = Vec::new();
    for k in 0..slide_count
        invariant
            slide_count == slides@.len(),
            texts == strings_view(slides@),
            strings_view(sections@) =~= slide_sections(texts).take(k as int),
    {
        let mut section = String::from_str("--- Slide ");
        let number = decimal_string(k + 1);
        section.append(number.as_str());
        section.append(" ---\n");
        section.append(slides[k].as_str());
        let ghost old_sections = sections@;
        sections.push(section);
        assert(strings_view(sections@) =~= strings_view(old_sections).push(section@));
        assert(slide_sections(texts).take(k + 1) =~= slide_sections(texts).take(k as int).push(
            slide_section((k + 1) as nat, texts[k as int]),
        ));
    }
    assert(slide_sections(texts).take(slide_count as int) =~= slide_sections(texts));
    let text = join_strings(&sections, "\n\n");
    Ok(
        ParsedDocument {
            text,
            metadata: DocumentMetadata { format: DocumentFormat::Pptx, slide_count: Some(slide_count) },
        },
    )
}

} // verus!
