//! Turning documents into plain text: the choice of reader by file
//! extension, the text of a Word document's XML body, and the text layout of
//! spreadsheet cells.
use vstd::prelude::*;
use vstd::string::StringExecFns;
use vstd::string::StrSliceExecFns;
use quick_xml::events::Event;
use quick_xml::Reader;

verus! {

broadcast use vstd::string::group_string_axioms;

// ------------------------------ file kinds ------------------------------
/// The document formats the ingestion reads.
#[derive(Debug, PartialEq, Eq)]
pub enum DocumentKind {
    Txt,
    Pdf,
    Docx,
    Xlsx,
}

/// `c` is the lowercase ASCII letter `lower` or its uppercase form.
pub open spec fn ascii_ci(c: char, lower: char) -> bool {
    c == lower || (c as u32) + 32 == lower as u32
}

/// `s` is `word` (lowercase ASCII letters) up to case. No character outside
/// ASCII lowercases to one of the letters used here.
pub open spec fn same_word_ci(s: Seq<char>, word: Seq<char>) -> bool {
    &&& s.len() == word.len()
    &&& forall|i: int| 0 <= i < s.len() ==> ascii_ci(#[trigger] s[i], word[i])
}

fn word_ci(s: &str, word: &str) -> (b: bool)
    requires
        forall|i: int| 0 <= i < word@.len() ==> 'a' <= #[trigger] word@[i] <= 'z',
    ensures
        b == same_word_ci(s@, word@),
{
    let n = word.unicode_len();
    if s.unicode_len() != n {
        return false;
    }
    let mut i: usize = 0;
    while i < n
        invariant
            n == word@.len(),
            s@.len() == n,
            i <= n,
            forall|j: int| 0 <= j < i ==> ascii_ci(#[trigger] s@[j], word@[j]),
        decreases n - i,
    {
        let c = s.get_char(i);
        let w = word.get_char(i);
        if !(c == w || (c as u32) + 32 == w as u32) {
            return false;
        }
        i = i + 1;
    }
    true
}

/// Name of the extension that `std::path::Path::extension` finds in a path
/// (empty when there is none), with invalid Unicode replaced.
pub uninterp spec fn path_extension(path: Seq<char>) -> Seq<char>;

/// Name of what `str::to_lowercase` returns.
pub uninterp spec fn lowercase(s: Seq<char>) -> Seq<char>;

/// Calls `std::path::Path::extension` on the path and converts the result
/// with `to_string_lossy`; an absent extension gives the empty string. The
/// result is named `path_extension` of the path.
#[verifier::external_body]
fn file_extension(path: &str) -> (ext: String)
    ensures
        ext@ == path_extension(path@),
{
    std::path::Path::new(path).extension().unwrap_or_default().to_string_lossy().into_owned()
}

/// Calls `str::to_lowercase`; the result is named `lowercase` of the argument.
#[verifier::external_body]
fn to_lowercase(s: &str) -> (r: String)
    ensures
        r@ == lowercase(s@),
{
    s.to_lowercase()
}

/// The reader for a file, chosen by its extension up to case.
pub open spec fn kind_of_extension(ext: Seq<char>) -> Option<DocumentKind> {
    if same_word_ci(ext, seq!['t', 'x', 't']) {
        Some(DocumentKind::Txt)
    } else if same_word_ci(ext, seq!['p', 'd', 'f']) {
        Some(DocumentKind::Pdf)
    } else if same_word_ci(ext, seq!['d', 'o', 'c', 'x']) {
        Some(DocumentKind::Docx)
    } else if same_word_ci(ext, seq!['x', 'l', 's', 'x']) {
        Some(DocumentKind::Xlsx)
    } else {
        None
    }
}

/// The reader to use for `path`; an unknown extension gives the message
/// `Unsupported file format: <extension in lowercase>`.
pub fn document_kind(path: &str) -> (res: Result<DocumentKind, String>)
    ensures
        match kind_of_extension(path_extension(path@)) {
            Some(k) => res == Ok::<DocumentKind, String>(k),
            None => res matches Err(m) && m@ == "Unsupported file format: "@ + lowercase(path_extension(path@)),
        },
{
    let ext = file_extension(path);
    proof {
        reveal_strlit("txt");
        reveal_strlit("pdf");
        reveal_strlit("docx");
        reveal_strlit("xlsx");
        assert("txt"@ =~= seq!['t', 'x', 't']);
        assert("pdf"@ =~= seq!['p', 'd', 'f']);
        assert("docx"@ =~= seq!['d', 'o', 'c', 'x']);
        assert("xlsx"@ =~= seq!['x', 'l', 's', 'x']);
    }
    if word_ci(ext.as_str(), "txt") {
        Ok(DocumentKind::Txt)
    } else if word_ci(ext.as_str(), "pdf") {
        Ok(DocumentKind::Pdf)
    } else if word_ci(ext.as_str(), "docx") {
        Ok(DocumentKind::Docx)
    } else if word_ci(ext.as_str(), "xlsx") {
        Ok(DocumentKind::Xlsx)
    } else {
        let lower = to_lowercase(ext.as_str());
        let mut msg = String::from_str("Unsupported file format: ");
        msg.append(lower.as_str());
        Err(msg)
    }
}

// ------------------------------ spreadsheets ------------------------------
/// One worksheet: its name and, when it could be read, its rows of cells;
/// a cell holds its text, or nothing for an empty or error cell.
pub struct SheetCells {
    pub name: String,
    pub rows: Option<Vec<Vec<Option<String>>>>,
}

/// Views of the cells that hold text, in order.
pub open spec fn kept_cells(row: Seq<Option<String>>) -> Seq<Seq<char>>
    decreases row.len(),
{
    if row.len() == 0 {
        Seq::empty()
    } else {
        let rest = kept_cells(row.drop_last());
        match row.last() {
            Some(s) => rest.push(s@),
            None => rest,
        }
    }
}

/// `parts` joined with `sep` between consecutive parts.
pub open spec fn join(parts: Seq<Seq<char>>, sep: Seq<char>) -> Seq<char>
    decreases parts.len(),
{
    if parts.len() == 0 {
        Seq::empty()
    } else if parts.len() == 1 {
        parts[0]
    } else {
        join(parts.drop_last(), sep) + sep + parts.last()
    }
}

/// The line of a row: its text cells joined by ` | ` and a newline, or
/// nothing when the row has no text cell.
pub open spec fn row_line(row: Seq<Option<String>>) -> Seq<char> {
    let cells = kept_cells(row);
    if cells.len() == 0 {
        Seq::empty()
    } else {
        join(cells, " | "@) + "\n"@
    }
}

/// The lines of the given rows, in order.
pub open spec fn rows_text(rows: Seq<Vec<Option<String>>>) -> Seq<char>
    decreases rows.len(),
{
    if rows.len() == 0 {
        Seq::empty()
    } else {
        rows_text(rows.drop_last()) + row_line(rows.last()@)
    }
}

/// A sheet's header line `--- Sheet: <name> ---` and the lines of its rows.
pub open spec fn sheet_text(sheet: SheetCells) -> Seq<char> {
    "--- Sheet: "@ + sheet.name@ + " ---\n"@ + match sheet.rows {
        Some(rows) => rows_text(rows@),
        None => Seq::empty(),
    }
}

/// The text of a workbook: the texts of its sheets, in order.
pub open spec fn workbook_text(sheets: Seq<SheetCells>) -> Seq<char>
    decreases sheets.len(),
{
    if sheets.len() == 0 {
        Seq::empty()
    } else {
        workbook_text(sheets.drop_last()) + sheet_text(sheets.last())
    }
}

fn append_row(out: &mut String, row: &Vec<Option<String>>)
    ensures
        final(out)@ == old(out)@ + row_line(row@),
{
    let ghost start = out@;
    let mut first = true;
    let mut i: usize = 0;
    let ghost mut line: Seq<char> = Seq::empty();
    while i < row.len()
        invariant
            i <= row@.len(),
            first <==> kept_cells(row@.take(i as int)).len() == 0,
            out@ == start + join(kept_cells(row@.take(i as int)), " | "@),
        decreases row@.len() - i,
    {
        proof {
            assert(row@.take(i + 1).drop_last() =~= row@.take(i as int));
            assert(row@.take(i + 1).last() == row@[i as int]);
        }
        match &row[i] {
            Some(s) => {
                proof {
                    reveal_strlit(" | ");
                }
                if !first {
                    out.append(" | ");
                }
                out.append(s.as_str());
                first = false;
                proof {
                    let k = kept_cells(row@.take(i + 1));
                    assert(k == kept_cells(row@.take(i as int)).push(s@));
                    if k.len() == 1 {
                        assert(k[0] == s@);
                        assert(kept_cells(row@.take(i as int)) =~= Seq::<Seq<char>>::empty());
                    } else {
                        assert(k.drop_last() =~= kept_cells(row@.take(i as int)));
                    }
                    assert(out@ =~= start + join(k, " | "@));
                }
            },
            None => {},
        }
        i = i + 1;
    }
    proof {
        assert(row@.take(i as int) =~= row@);
    }
    if !first {
        out.append("\n");
        proof {
            assert(out@ =~= start + row_line(row@));
        }
    } else {
        assert(out@ =~= start + row_line(row@));
    }
}

/// Lays out the cells of a workbook as text: for each sheet a header line,
/// then one line per row with text cells (` | ` between cells).
pub fn format_workbook(sheets: &Vec<SheetCells>) -> (text: String)
    ensures
        text@ == workbook_text(sheets@),
{
    let mut text = String::new();
    let mut s: usize = 0;
    while s < sheets.len()
        invariant
            s <= sheets@.len(),
            text@ == workbook_text(sheets@.take(s as int)),
        decreases sheets@.len() - s,
    {
        let sheet = &sheets[s];
        let ghost before = text@;
        text.append("--- Sheet: ");
        text.append(sheet.name.as_str());
        text.append(" ---\n");
        match &sheet.rows {
            Some(rows) => {
                let mut r: usize = 0;
                while r < rows.len()
                    invariant
                        r <= rows@.len(),
                        text@ == before + "--- Sheet: "@ + sheet.name@ + " ---\n"@ + rows_text(rows@.take(r as int)),
                    decreases rows@.len() - r,
                {
                    append_row(&mut text, &rows[r]);
                    proof {
                        assert(rows@.take(r + 1).drop_last() =~= rows@.take(r as int));
                    }
                    r = r + 1;
                }
                proof {
                    assert(rows@.take(r as int) =~= rows@);
                }
            },
            None => {},
        }
        proof {
            assert(sheets@.take(s + 1).drop_last() =~= sheets@.take(s as int));
            assert(sheets@.take(s + 1).last() == sheets@[s as int]);
            assert(text@ =~= workbook_text(sheets@.take(s + 1)));
        }
        s = s + 1;
    }
    proof {
        assert(sheets@.take(s as int) =~= sheets@);
    }
    text
}

// ------------------------------ Word documents ------------------------------
/// What the text extraction sees of one XML event of a document body.
pub enum DocxEvent {
    /// A start tag, by its raw name.
    Start(Vec<u8>),
    /// An end tag, by its raw name.
    End(Vec<u8>),
    /// Character data, unescaped (or the unescaping error).
    Text(Result<String, String>),
    /// End of the document.
    Eof,
    /// Anything else (empty elements, comments, declarations, ...).
    Other,
    /// A reading error, by its message.
    Failed(String),
}

/// `name` is the raw tag name `w:t` (a run of text).
pub open spec fn is_text_tag(name: Seq<u8>) -> bool {
    name == seq![119u8, 58u8, 116u8]
}

/// `name` is the raw tag name `w:p` (a paragraph).
pub open spec fn is_paragraph_tag(name: Seq<u8>) -> bool {
    name == seq![119u8, 58u8, 112u8]
}

/// State of the extraction after the given events: `Err` once an error is
/// met, else the text so far, whether a text run is open, and whether the
/// end of the document was reached.
pub open spec fn docx_fold(events: Seq<DocxEvent>) -> Result<(Seq<char>, bool, bool), Seq<char>>
    decreases events.len(),
{
    if events.len() == 0 {
        Ok((Seq::empty(), false, false))
    } else {
        match docx_fold(events.drop_last()) {
            Err(m) => Err(m),
            Ok((text, in_text, done)) => if done {
                Ok((text, in_text, done))
            } else {
                match events.last() {
                    DocxEvent::Start(n) => if is_text_tag(n@) {
                        Ok((text, true, false))
                    } else if is_paragraph_tag(n@) {
                        Ok((text.push('\n'), in_text, false))
                    } else {
                        Ok((text, in_text, false))
                    },
                    DocxEvent::End(n) => if is_text_tag(n@) {
                        Ok((text, false, false))
                    } else {
                        Ok((text, in_text, false))
                    },
                    DocxEvent::Text(r) => if in_text {
                        match r {
                            Ok(s) => Ok((text + s@ + seq![' '], in_text, false)),
                            Err(m) => Err(m@),
                        }
                    } else {
                        Ok((text, in_text, false))
                    },
                    DocxEvent::Eof => Ok((text, in_text, true)),
                    DocxEvent::Other => Ok((text, in_text, false)),
                    DocxEvent::Failed(m) => Err(m@),
                }
            },
        }
    }
}

/// Text of a document body from its events: the contents of each `w:t`
/// run followed by a space, and a newline at the start of each `w:p`
/// paragraph; events after the end are ignored; the first error is returned.
pub open spec fn docx_result(events: Seq<DocxEvent>) -> Result<Seq<char>, Seq<char>> {
    match docx_fold(events) {
        Ok((text, _, _)) => Ok(text),
        Err(m) => Err(m),
    }
}

fn is_tag(name: &Vec<u8>, last: u8) -> (b: bool)
    ensures
        b == (name@ == seq![119u8, 58u8, last]),
{
    let r = name.len() == 3 && name[0] == 119 && name[1] == 58 && name[2] == last;
    proof {
        if name@.len() == 3 && name@[0] == 119 && name@[1] == 58 && name@[2] == last {
            assert(name@ =~= seq![119u8, 58u8, last]);
        }
    }
    r
}

/// Extracts the text of a document body from its XML events; see `docx_result`.
pub fn docx_text(events: &Vec<DocxEvent>) -> (res: Result<String, String>)
    ensures
        match docx_result(events@) {
            Ok(t) => res matches Ok(s) && s@ == t,
            Err(m) => res matches Err(e) && e@ == m,
        },
{
    let mut text = String::new();
    let mut in_text = false;
    let mut i: usize = 0;
    while i < events.len()
        invariant
            i <= events@.len(),
            docx_fold(events@.take(i as int)) == Ok::<(Seq<char>, bool, bool), Seq<char>>((text@, in_text, false)),
        decreases events@.len() - i,
    {
        proof {
            assert(events@.take(i + 1).drop_last() =~= events@.take(i as int));
            assert(events@.take(i + 1).last() == events@[i as int]);
        }
        match &events[i] {
            DocxEvent::Start(n) => {
                if is_tag(n, 116) {
                    in_text = true;
                } else if is_tag(n, 112) {
                    let ghost prev = text@;
                    text.append("\n");
                    proof {
                        reveal_strlit("\n");
                        assert(text@ =~= prev.push('\n'));
                    }
                }
            },
            DocxEvent::End(n) => {
                if is_tag(n, 116) {
                    in_text = false;
                }
            },
            DocxEvent::Text(r) => {
                if in_text {
                    match r {
                        Ok(s) => {
                            let ghost prev = text@;
                            text.append(s.as_str());
                            text.append(" ");
                            proof {
                                reveal_strlit(" ");
                                assert(text@ =~= prev + s@ + seq![' ']);
                            }
                        },
                        Err(m) => {
                            proof {
                                lemma_docx_err_sticks(events@, i as int + 1);
                            }
                            return Err(m.clone());
                        },
                    }
                }
            },
            DocxEvent::Eof => {
                proof {
                    lemma_docx_done_sticks(events@, i as int + 1);
                }
                return Ok(text);
            },
            DocxEvent::Other => {},
            DocxEvent::Failed(m) => {
                proof {
                    lemma_docx_err_sticks(events@, i as int + 1);
                }
                return Err(m.clone());
            },
        }
        i = i + 1;
    }
    proof {
        assert(events@.take(i as int) =~= events@);
    }
    Ok(text)
}

proof fn lemma_docx_err_sticks(events: Seq<DocxEvent>, k: int)
    requires
        0 <= k <= events.len(),
        docx_fold(events.take(k)) is Err,
    ensures
        docx_fold(events) == docx_fold(events.take(k)),
    decreases events.len() - k,
{
    if k < events.len() {
        assert(events.take(k + 1).drop_last() =~= events.take(k));
        lemma_docx_err_sticks(events, k + 1);
    } else {
        assert(events.take(k) =~= events);
    }
}

proof fn lemma_docx_done_sticks(events: Seq<DocxEvent>, k: int)
    requires
        0 <= k <= events.len(),
        docx_fold(events.take(k)) matches Ok((_, _, d)) && d,
    ensures
        docx_fold(events) == docx_fold(events.take(k)),
    decreases events.len() - k,
{
    if k < events.len() {
        assert(events.take(k + 1).drop_last() =~= events.take(k));
        lemma_docx_done_sticks(events, k + 1);
    } else {
        assert(events.take(k) =~= events);
    }
}


// ------------------------------ reading the XML ------------------------------
#[verifier::external_type_specification]
#[verifier::external_body]
#[verifier::reject_recursive_types(R)]
pub struct ExXmlReader<R>(Reader<R>);

/// Name of the `k`-th event (counting from 0) that `quick_xml::Reader::read_event`
/// returns on a reader made by `Reader::from_str(xml)` and set to
/// `trim_text(true)`, as the extraction sees it: tags by their raw names,
/// text unescaped by `BytesText::unescape`, the end of input, any other
/// event, or a reading error, by its message.
pub uninterp spec fn trimmed_xml_event(xml: Seq<char>, k: nat) -> DocxEvent;

/// The first `n` events of `xml`, as the extraction reads them.
pub open spec fn xml_events(xml: Seq<char>, n: nat) -> Seq<DocxEvent> {
    Seq::new(n, |k: int| trimmed_xml_event(xml, k as nat))
}

/// Name of the `j`-th event (counting from 0) that `quick_xml::Reader::read_event`
/// returns when called again and again on the reader `r` as it stands, as the
/// extraction sees it (see `trimmed_xml_event`).
pub uninterp spec fn reader_event(r: Reader<&[u8]>, j: nat) -> DocxEvent;

/// Calls `quick_xml::Reader::from_str` and sets the new reader to
/// `trim_text(true)`. Its events from then on are those named
/// `trimmed_xml_event` of the text.
#[verifier::external_body]
fn trimmed_xml_reader<'a>(xml: &'a str) -> (r: Reader<&'a [u8]>)
    ensures
        forall|j: nat| #[trigger] reader_event(r, j) == trimmed_xml_event(xml@, j),
{
    let mut reader = Reader::from_str(xml);
    reader.trim_text(true);
    reader
}

/// Calls `quick_xml::Reader::read_event` and converts the event: start and
/// end tags to their raw names, text to the result of
/// `BytesText::unescape` (an error by its message), the end of input, every
/// other kind of event as `Other`, and a reading error by its message. The
/// event is the reader's next one, and the reader then yields the events
/// that followed it.
#[verifier::external_body]
fn read_docx_event(reader: &mut Reader<&[u8]>) -> (e: DocxEvent)
    ensures
        e == reader_event(*old(reader), 0),
        forall|j: nat| #[trigger] reader_event(*final(reader), j) == reader_event(*old(reader), j + 1),
{
    match reader.read_event() {
        Ok(Event::Start(e)) => DocxEvent::Start(e.name().as_ref().to_vec()),
        Ok(Event::End(e)) => DocxEvent::End(e.name().as_ref().to_vec()),
        Ok(Event::Text(t)) => DocxEvent::Text(match t.unescape() {
            Ok(c) => Ok(c.into_owned()),
            Err(e) => Err(e.to_string()),
        }),
        Ok(Event::Eof) => DocxEvent::Eof,
        Ok(_) => DocxEvent::Other,
        Err(e) => DocxEvent::Failed(e.to_string()),
    }
}

/// The text of a Word document body (`word/document.xml`): reads its XML
/// events with trimmed text up to the end of input or the first error, but
/// at most one event more than the XML has bytes, and extracts the text as
/// `docx_text` does.
pub fn parse_docx_xml(xml: &str) -> (res: Result<String, String>)
    ensures
        match docx_result(xml_events(xml@, (xml.len() + 1) as nat)) {
            Ok(t) => res matches Ok(s) && s@ == t,
            Err(m) => res matches Err(e) && e@ == m,
        },
{
    let mut reader = trimmed_xml_reader(xml);
    let limit = xml.len();
    let ghost all = xml_events(xml@, (limit + 1) as nat);
    let mut list: Vec<DocxEvent> = Vec::new();
    loop
        invariant_except_break
            forall|j: nat| #[trigger] reader_event(reader, j) == trimmed_xml_event(xml@, list@.len() + j),
            list@.len() <= limit,
            list@ == all.take(list@.len() as int),
            all == xml_events(xml@, (limit + 1) as nat),
        ensures
            1 <= list@.len() <= limit + 1,
            list@ == all.take(list@.len() as int),
            all == xml_events(xml@, (limit + 1) as nat),
            list@.len() == limit + 1 || docx_fold(list@) is Err || (docx_fold(list@) matches Ok((_, _, d)) && d),
        decreases limit - list@.len(),
    {
        let ghost before = list@;
        let e = read_docx_event(&mut reader);
        proof {
            assert(reader_event(reader, 0) == trimmed_xml_event(xml@, (before.len() + 1) as nat));
            assert(e == trimmed_xml_event(xml@, before.len()));
        }
        let stop = matches!(e, DocxEvent::Eof | DocxEvent::Failed(_));
        list.push(e);
        proof {
            assert(list@ =~= all.take(list@.len() as int));
            assert(list@.drop_last() =~= before);
        }
        if stop || list.len() > limit {
            break;
        }
    }
    proof {
        let n = list@.len() as int;
        if n < limit + 1 {
            if docx_fold(all.take(n)) is Err {
                lemma_docx_err_sticks(all, n);
            } else {
                lemma_docx_done_sticks(all, n);
            }
        } else {
            assert(all.take(n) =~= all);
        }
    }
    docx_text(&list)
}

// ------------------------------ laws ------------------------------
/// `c` with an ASCII uppercase letter taken to its lowercase code.
pub open spec fn ascii_folded(c: char) -> u32 {
    if 'A' <= c <= 'Z' {
        (c as u32 + 32) as u32
    } else {
        c as u32
    }
}

/// `a` and `b` are the same text up to the case of ASCII letters.
pub open spec fn same_up_to_ascii_case(a: Seq<char>, b: Seq<char>) -> bool {
    &&& a.len() == b.len()
    &&& forall|i: int| 0 <= i < a.len() ==> ascii_folded(#[trigger] a[i]) == ascii_folded(b[i])
}

proof fn lemma_ci_folded(c: char, l: char)
    requires
        'a' <= l <= 'z',
    ensures
        ascii_ci(c, l) == (ascii_folded(c) == l as u32),
{
    if 'A' <= c <= 'Z' {
        assert(c as u32 <= 'Z' as u32);
        assert(c != l);
    } else {
        assert(c as u32 + 32 != l as u32);
    }
}

proof fn lemma_same_word_up_to_case(a: Seq<char>, b: Seq<char>, word: Seq<char>)
    requires
        same_up_to_ascii_case(a, b),
        forall|i: int| 0 <= i < word.len() ==> 'a' <= #[trigger] word[i] <= 'z',
    ensures
        same_word_ci(a, word) == same_word_ci(b, word),
{
    assert forall|i: int| 0 <= i < a.len() && i < word.len() implies
        ascii_ci(#[trigger] a[i], word[i]) == ascii_ci(b[i], word[i]) by {
        assert(ascii_folded(a[i]) == ascii_folded(b[i]));
        lemma_ci_folded(a[i], word[i]);
        lemma_ci_folded(b[i], word[i]);
    }
    if same_word_ci(a, word) {
        assert forall|i: int| 0 <= i < b.len() implies ascii_ci(#[trigger] b[i], word[i]) by {
            assert(ascii_ci(a[i], word[i]));
        }
    }
    if same_word_ci(b, word) {
        assert forall|i: int| 0 <= i < a.len() implies ascii_ci(#[trigger] a[i], word[i]) by {
            assert(ascii_ci(b[i], word[i]));
        }
    }
}

/// The reader chosen for a file depends on its extension only up to the
/// case of ASCII letters: `Budget.XLSX` is read as `Budget.xlsx` is.
pub proof fn law_kind_ignores_case(a: Seq<char>, b: Seq<char>)
    requires
        same_up_to_ascii_case(a, b),
    ensures
        kind_of_extension(a) == kind_of_extension(b),
{
    let txt = seq!['t', 'x', 't'];
    let pdf = seq!['p', 'd', 'f'];
    let docx = seq!['d', 'o', 'c', 'x'];
    let xlsx = seq!['x', 'l', 's', 'x'];
    assert forall|i: int| 0 <= i < txt.len() implies 'a' <= #[trigger] txt[i] <= 'z' by {}
    assert forall|i: int| 0 <= i < pdf.len() implies 'a' <= #[trigger] pdf[i] <= 'z' by {}
    assert forall|i: int| 0 <= i < docx.len() implies 'a' <= #[trigger] docx[i] <= 'z' by {}
    assert forall|i: int| 0 <= i < xlsx.len() implies 'a' <= #[trigger] xlsx[i] <= 'z' by {}
    lemma_same_word_up_to_case(a, b, txt);
    lemma_same_word_up_to_case(a, b, pdf);
    lemma_same_word_up_to_case(a, b, docx);
    lemma_same_word_up_to_case(a, b, xlsx);
}

proof fn lemma_kept_cells_insert_none(row: Seq<Option<String>>, i: int)
    requires
        0 <= i <= row.len(),
    ensures
        kept_cells(row.insert(i, None)) == kept_cells(row),
    decreases row.len(),
{
    let r = row.insert(i, None);
    if i == row.len() {
        assert(r.drop_last() =~= row);
        assert(r.last() == None::<String>);
    } else {
        assert(r.drop_last() =~= row.drop_last().insert(i, None));
        assert(r.last() == row.last());
        lemma_kept_cells_insert_none(row.drop_last(), i);
    }
}

/// Empty cells leave no trace in a row's line: putting an empty cell
/// anywhere in a row does not change its line.
pub proof fn law_empty_cell_ignored(row: Seq<Option<String>>, i: int)
    requires
        0 <= i <= row.len(),
    ensures
        row_line(row.insert(i, None)) == row_line(row),
{
    lemma_kept_cells_insert_none(row, i);
}

/// A row with one text cell is that text and a newline; with two, they are
/// joined by ` | `.
pub proof fn law_row_lines(x: String, y: String)
    ensures
        row_line(seq![Some(x)]) == x@ + "\n"@,
        row_line(seq![Some(x), Some(y)]) == x@ + " | "@ + y@ + "\n"@,
{
    let one = seq![Some(x)];
    assert(one.drop_last() =~= Seq::<Option<String>>::empty());
    assert(one.last() == Some(x));
    assert(kept_cells(Seq::<Option<String>>::empty()) =~= Seq::<Seq<char>>::empty());
    assert(kept_cells(one) =~= seq![x@]);
    let two = seq![Some(x), Some(y)];
    assert(two.drop_last() =~= one);
    assert(two.last() == Some(y));
    assert(kept_cells(two) =~= seq![x@, y@]);
    assert(seq![x@, y@].drop_last() =~= seq![x@]);
}

proof fn lemma_docx_fold_extend(a: Seq<DocxEvent>, b: Seq<DocxEvent>, rest: Seq<DocxEvent>)
    requires
        docx_fold(a) == docx_fold(b),
    ensures
        docx_fold(a + rest) == docx_fold(b + rest),
    decreases rest.len(),
{
    if rest.len() == 0 {
        assert(a + rest =~= a);
        assert(b + rest =~= b);
    } else {
        lemma_docx_fold_extend(a, b, rest.drop_last());
        assert((a + rest).drop_last() =~= a + rest.drop_last());
        assert((b + rest).drop_last() =~= b + rest.drop_last());
        assert((a + rest).last() == rest.last());
        assert((b + rest).last() == rest.last());
    }
}

/// Only the start tags `w:t` and `w:p` count: any other start tag (such as
/// the paragraph properties `w:pPr`) leaves the extracted text as it would
/// be without it.
pub proof fn law_docx_other_start_ignored(before: Seq<DocxEvent>, name: Vec<u8>, after: Seq<DocxEvent>)
    requires
        name@ != seq![119u8, 58u8, 116u8],
        name@ != seq![119u8, 58u8, 112u8],
    ensures
        docx_result(before.push(DocxEvent::Start(name)) + after) == docx_result(before + after),
{
    let with = before.push(DocxEvent::Start(name));
    assert(with.drop_last() =~= before);
    assert(docx_fold(with) == docx_fold(before));
    lemma_docx_fold_extend(with, before, after);
}

/// A paragraph start tag `w:p` opens a new line; a `w:t` run inside it
/// gives its text followed by a space.
pub proof fn law_docx_paragraph_run(p: Vec<u8>, t: Vec<u8>, s: String)
    requires
        p@ == seq![119u8, 58u8, 112u8],
        t@ == seq![119u8, 58u8, 116u8],
    ensures
        docx_result(seq![DocxEvent::Start(p), DocxEvent::Start(t), DocxEvent::Text(Ok(s)), DocxEvent::End(t)])
            == Ok::<Seq<char>, Seq<char>>(seq!['\n'] + s@ + seq![' ']),
{
    let e = seq![DocxEvent::Start(p), DocxEvent::Start(t), DocxEvent::Text(Ok(s)), DocxEvent::End(t)];
    let e1 = e.take(1);
    let e2 = e.take(2);
    let e3 = e.take(3);
    assert(e1.drop_last() =~= Seq::<DocxEvent>::empty());
    assert(e2.drop_last() =~= e1);
    assert(e3.drop_last() =~= e2);
    assert(e.drop_last() =~= e3);
    assert(e1.last() == DocxEvent::Start(p));
    assert(e2.last() == DocxEvent::Start(t));
    assert(e3.last() == DocxEvent::Text(Ok::<String, String>(s)));
    assert(e.last() == DocxEvent::End(t));
    assert(docx_fold(Seq::<DocxEvent>::empty()) == Ok::<(Seq<char>, bool, bool), Seq<char>>((Seq::empty(), false, false)));
    assert(Seq::<char>::empty().push('\n') =~= seq!['\n']);
    assert(docx_fold(e1) == Ok::<(Seq<char>, bool, bool), Seq<char>>((seq!['\n'], false, false)));
    assert(docx_fold(e2) == Ok::<(Seq<char>, bool, bool), Seq<char>>((seq!['\n'], true, false)));
    assert(docx_fold(e3) == Ok::<(Seq<char>, bool, bool), Seq<char>>((seq!['\n'] + s@ + seq![' '], true, false)));
}

} // verus!
