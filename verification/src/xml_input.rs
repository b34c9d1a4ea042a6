//! Building a table from a streamed markup source.
//!
//! The markup syntax itself is read by the quick-xml crate over an
//! in-memory slice, behind a trusted declaration whose result is named
//! as a function of the text; character and entity references are then
//! resolved by verified code, and the single forward scan that turns
//! tag, text and end events into cells, rows and headers is the state
//! machine verified here: at most one "open" tag of interest at a time,
//! an accumulator of cells for the sample being assembled, and a growing
//! row sequence finalized at each closing tag.

use vstd::prelude::*;

verus! {

use vstd::string::StringExecFns;
use vstd::string::StrSliceExecFns;
use quick_xml::events::Event;
use quick_xml::Reader;
use crate::data::{chars_of, Data, DataCell, DataRow, str_eq};
use crate::token::{all_digits, digit_val, digits_val, is_digit};

/// One event of the markup stream, reduced to what the scan reads: tag
/// boundaries, text content, and general references.
pub enum XmlEvent {
    Start(String),
    End(String),
    Text(String),
    Ref(String),
}

/// A fatal markup parse failure, with the byte position it arose at.
#[derive(Debug)]
pub struct XmlFault {
    pub position: u64,
    pub message: String,
}

impl XmlFault {
    /// A failure at a position, with its description.
    pub fn at(position: u64, message: String) -> (r: XmlFault)
        ensures r.position == position, r.message == message,
    {
        XmlFault { position, message }
    }
}

/// What the quick-xml crate reads from a text: the whole event stream up
/// to its end, or the first fault.  The parse is a function of the text
/// alone.
pub uninterp spec fn xml_stream_of(s: Seq<char>) -> Result<Vec<XmlEvent>, XmlFault>;

/// Relies on quick_xml::Reader (from_str with the default configuration,
/// read_event, buffer_position): reads the whole stream, one event per
/// step, keeping tag boundaries, text and general references and
/// skipping the rest; stops at end of input, or at the first malformed
/// event with its position.  The result is the named `xml_stream_of` of
/// the text.
#[verifier::external_body]
fn read_xml_stream(text: &str) -> (r: Result<Vec<XmlEvent>, XmlFault>)
    ensures r == xml_stream_of(text@),
{
    let mut rd = Reader::from_str(text);
    let mut evs = vec![];
    loop {
        match rd.read_event() {
            Err(e) => return Err(XmlFault::at(rd.buffer_position(), e.to_string())),
            Ok(Event::Eof) => return Ok(evs),
            Ok(Event::Start(t)) => evs.push(XmlEvent::Start(t.name().0.to_owned())),
            Ok(Event::End(t)) => evs.push(XmlEvent::End(t.name().0.to_owned())),
            Ok(Event::Text(t)) => evs.push(XmlEvent::Text(t.into_inner().into_owned())),
            Ok(Event::GeneralRef(g)) => evs.push(XmlEvent::Ref(g.into_inner().into_owned())),
            _ => {},
        }
    }
}

/// Relies on quick_xml::escape::resolve_xml_entity: the expansion of
/// exactly the five predefined entities, and nothing else.
#[verifier::external_body]
fn resolve_entity(name: &str) -> (r: Option<String>)
    ensures
        (r is Some) <==> (name@ == "amp"@ || name@ == "lt"@ || name@ == "gt"@
            || name@ == "apos"@ || name@ == "quot"@),
        r matches Some(s) ==> {
            &&& name@ == "amp"@ ==> s@ == "&"@
            &&& name@ == "lt"@ ==> s@ == "<"@
            &&& name@ == "gt"@ ==> s@ == ">"@
            &&& name@ == "apos"@ ==> s@ == "'"@
            &&& name@ == "quot"@ ==> s@ == "\""@
        },
{
    quick_xml::escape::resolve_xml_entity(name).map(|s| s.to_string())
}

/// Relies on char::from_u32: the character with the given scalar value,
/// and nothing for surrogates or values beyond the maximum.
pub assume_specification[ char::from_u32 ](i: u32) -> (r: Option<char>)
    ensures
        r matches Some(c) ==> c as u32 == i,
        (r is Some) <==> (i < 0xD800 || (0xE000 <= i && i <= 0x10FFFF)),
;

/// Relies on String's conversion from a char: the one-character string.
#[verifier::external_body]
fn char_string(c: char) -> (r: String)
    ensures r@ == seq![c],
{
    String::from(c)
}

/// An ASCII hexadecimal digit.
pub open spec fn is_hex_digit(c: char) -> bool {
    is_digit(c)
        || (97 <= c as u32 && c as u32 <= 102)
        || (65 <= c as u32 && c as u32 <= 70)
}

/// The value of one hexadecimal digit.
pub open spec fn hex_digit_val(c: char) -> int {
    if is_digit(c) {
        digit_val(c)
    } else if 97 <= c as u32 {
        c as u32 - 87
    } else {
        c as u32 - 55
    }
}

pub open spec fn all_hex(s: Seq<char>) -> bool {
    forall|i: int| 0 <= i < s.len() ==> is_hex_digit(#[trigger] s[i])
}

/// The base-16 value of a hexadecimal digit string.
pub open spec fn hex_val(s: Seq<char>) -> int
    decreases s.len(),
{
    if s.len() == 0 {
        0
    } else {
        hex_val(s.drop_last()) * 16 + hex_digit_val(s.last())
    }
}

/// Hexadecimal digit strings have nonnegative values.
proof fn lemma_hex_val_nonneg(s: Seq<char>)
    requires all_hex(s),
    ensures hex_val(s) >= 0,
    decreases s.len(),
{
    if s.len() > 0 {
        assert(all_hex(s.drop_last()));
        lemma_hex_val_nonneg(s.drop_last());
    }
}

/// Extending a hexadecimal digit string never shrinks its value.
proof fn lemma_hex_prefix_le(s: Seq<char>, i: int)
    requires all_hex(s), 0 <= i <= s.len(),
    ensures hex_val(s.take(i)) <= hex_val(s),
    decreases s.len() - i,
{
    if i < s.len() {
        assert(s.take(i + 1).drop_last() =~= s.take(i));
        assert(all_hex(s.take(i)));
        lemma_hex_val_nonneg(s.take(i));
        assert(hex_val(s.take(i + 1)) == hex_val(s.take(i)) * 16 + hex_digit_val(s[i]));
        assert(hex_val(s.take(i)) * 16 >= hex_val(s.take(i))) by (nonlinear_arith)
            requires hex_val(s.take(i)) >= 0,
        ;
        lemma_hex_prefix_le(s, i + 1);
    } else {
        assert(s.take(i) =~= s);
    }
}

/// A scalar value a character can carry: not a surrogate, not beyond the
/// maximum code point.
pub open spec fn valid_scalar(v: int) -> bool {
    0 <= v && (v < 0xD800 || (0xE000 <= v && v <= 0x10FFFF))
}

/// The code point a character reference names: `#` and decimal digits,
/// or `#x`/`#X` and hexadecimal digits, valued at a valid scalar.
pub open spec fn spec_char_ref_code(name: Seq<char>) -> Option<int> {
    if name.len() >= 2 && name[0] == '#' {
        if name[1] == 'x' || name[1] == 'X' {
            let body = name.subrange(2, name.len() as int);
            if body.len() >= 1 && all_hex(body) && valid_scalar(hex_val(body)) {
                Some(hex_val(body))
            } else {
                None
            }
        } else {
            let body = name.subrange(1, name.len() as int);
            if all_digits(body) && valid_scalar(digits_val(body)) {
                Some(digits_val(body))
            } else {
                None
            }
        }
    } else {
        None
    }
}

/// The expansion of a predefined named entity.
pub open spec fn spec_entity_expansion(name: Seq<char>) -> Option<Seq<char>> {
    if name == "amp"@ {
        Some("&"@)
    } else if name == "lt"@ {
        Some("<"@)
    } else if name == "gt"@ {
        Some(">"@)
    } else if name == "apos"@ {
        Some("'"@)
    } else if name == "quot"@ {
        Some("\""@)
    } else {
        None
    }
}

/// How reference resolution rewrites one event: a predefined entity or a
/// valid character reference becomes its text; anything else, and any
/// unresolvable reference, is kept unchanged.
pub open spec fn ref_resolution(inev: XmlEvent, outev: XmlEvent) -> bool {
    match inev {
        XmlEvent::Ref(name) => match spec_entity_expansion(name@) {
            Some(x) => outev matches XmlEvent::Text(t) && t@ == x,
            None => match spec_char_ref_code(name@) {
                Some(v) => outev matches XmlEvent::Text(t)
                    && t@.len() == 1 && t@[0] as u32 == v,
                None => outev == inev,
            },
        },
        _ => outev == inev,
    }
}

/// Reads a character reference name: exactly where the grammar matches
/// and the value is a scalar a character can carry.
fn parse_char_ref(name: &String) -> (r: Option<char>)
    ensures
        (r is Some) <==> (spec_char_ref_code(name@) is Some),
        r matches Some(c) ==> spec_char_ref_code(name@) == Some(c as u32 as int),
{
    let cs = chars_of(name.as_str());
    let n = cs.len();
    if n < 2 || cs[0] != '#' {
        return None;
    }
    let hex = cs[1] == 'x' || cs[1] == 'X';
    let start: usize = if hex { 2 } else { 1 };
    if start >= n {
        return None;
    }
    let ghost body = name@.subrange(start as int, n as int);
    proof {
        assert(forall|j: int| 0 <= j < body.len() ==> #[trigger] body[j] == name@[start + j]);
    }

    // every remaining character must be a digit of the base
    let mut i = start;
    while i < n
        invariant
            start <= i <= n,
            n == name@.len(),
            hex ==> forall|j: int| start <= j < i ==> is_hex_digit(#[trigger] name@[j]),
            !hex ==> forall|j: int| start <= j < i ==> is_digit(#[trigger] name@[j]),
        decreases n - i,
    {
        let u = cs[i] as u32;
        let ok = if hex {
            (48 <= u && u <= 57) || (97 <= u && u <= 102) || (65 <= u && u <= 70)
        } else {
            48 <= u && u <= 57
        };
        if !ok {
            proof { assert(body[i - start] == name@[i as int]); }
            return None;
        }
        i = i + 1;
    }
    proof {
        if hex {
            assert(all_hex(body));
        } else {
            assert(all_digits(body));
        }
    }

    // accumulate the code point, capped at the maximum scalar value
    let mut code: u32 = 0;
    let mut k = start;
    while k < n
        invariant
            start <= k <= n,
            n == name@.len(),
            hex ==> all_hex(body) && code == hex_val(body.take(k - start)),
            !hex ==> all_digits(body) && code == digits_val(body.take(k - start)),
            code <= 0x10FFFF,
        decreases n - k,
    {
        let ghost pk = k - start;
        proof {
            assert(body.take(pk + 1).drop_last() =~= body.take(pk));
            assert(body.take(pk + 1).last() == body[pk]);
            assert(body[pk] == name@[k as int]);
        }
        let u = cs[k] as u32;
        let d: u32 = if u <= 57 { u - 48 } else if u >= 97 { u - 87 } else { u - 55 };
        let next: u32 = if hex { code * 16 + d } else { code * 10 + d };
        if next > 0x10FFFF {
            proof {
                if hex {
                    assert(hex_val(body.take(pk + 1)) > 0x10FFFF);
                    assert(body.take(body.len() as int).take(pk + 1) =~= body.take(pk + 1));
                    lemma_hex_prefix_le(body, pk + 1);
                } else {
                    assert(digits_val(body.take(pk + 1)) > 0x10FFFF);
                    crate::token::lemma_digits_prefix_le(body, pk + 1);
                }
            }
            return None;
        }
        code = next;
        k = k + 1;
    }
    proof {
        assert(body.take(body.len() as int) =~= body);
    }
    char::from_u32(code)
}

/// Rewrites each event by reference resolution: predefined entities and
/// valid character references become their text, other events and
/// unresolvable references pass through unchanged.
fn resolve_refs(events: &Vec<XmlEvent>) -> (r: Vec<XmlEvent>)
    ensures
        r@.len() == events@.len(),
        forall|i: int| 0 <= i < events@.len()
            ==> ref_resolution(events@[i], #[trigger] r@[i]),
{
    let n = events.len();
    let mut out: Vec<XmlEvent> = Vec::new();
    let mut i: usize = 0;
    while i < n
        invariant
            i <= n,
            n == events@.len(),
            out@.len() == i,
            forall|j: int| 0 <= j < i
                ==> ref_resolution(events@[j], #[trigger] out@[j]),
        decreases n - i,
    {
        match &events[i] {
            XmlEvent::Ref(name) => {
                match resolve_entity(name.as_str()) {
                    Some(expansion) => out.push(XmlEvent::Text(expansion)),
                    None => match parse_char_ref(name) {
                        Some(c) => out.push(XmlEvent::Text(char_string(c))),
                        None => out.push(XmlEvent::Ref(name.clone())),
                    },
                }
            },
            XmlEvent::Start(t) => out.push(XmlEvent::Start(t.clone())),
            XmlEvent::End(t) => out.push(XmlEvent::End(t.clone())),
            XmlEvent::Text(t) => out.push(XmlEvent::Text(t.clone())),
        }
        i = i + 1;
    }
    out
}

/// A name equals one of the strings of the list.
pub open spec fn contains_str(hs: Seq<String>, name: Seq<char>) -> bool {
    exists|i: int| 0 <= i < hs.len() && (#[trigger] hs[i])@ == name
}

/// A sequence starts with a prefix.
pub open spec fn spec_starts_with(s: Seq<char>, p: Seq<char>) -> bool {
    s.len() >= p.len() && s.take(p.len() as int) == p
}

/// A tag captures text where its name is listed exactly, or where it
/// belongs to the sieving family of sibling tags sharing a prefix.
pub open spec fn tag_of_interest(name: Seq<char>, tags: Seq<String>) -> bool {
    contains_str(tags, name) || spec_starts_with(name, "filter-sieving"@)
}

/// The scan state: the currently open tag of interest, the cells of the
/// sample being assembled, and the completed rows.
pub open spec fn xml_scan(events: Seq<XmlEvent>, tags: Seq<String>, closing: Seq<char>)
    -> (Option<String>, Seq<DataCell>, Seq<Seq<DataCell>>)
    decreases events.len(),
{
    if events.len() == 0 {
        (None, Seq::empty(), Seq::empty())
    } else {
        xml_scan_step(xml_scan(events.drop_last(), tags, closing),
            events.last(), tags, closing)
    }
}

/// One transition of the scan: a start event of a tag of interest opens
/// it; text under an open tag becomes a cell and the tag stays open; the
/// closing tag finalizes the sample as a row; another end event closes
/// the matching open tag; everything else is ignored.
pub open spec fn xml_scan_step(
    st: (Option<String>, Seq<DataCell>, Seq<Seq<DataCell>>),
    ev: XmlEvent,
    tags: Seq<String>,
    closing: Seq<char>,
) -> (Option<String>, Seq<DataCell>, Seq<Seq<DataCell>>) {
    match ev {
        XmlEvent::Start(name) => if tag_of_interest(name@, tags) {
            (Some(name), st.1, st.2)
        } else {
            st
        },
        XmlEvent::Text(t) => match st.0 {
            Some(tag) => (st.0, st.1.push(DataCell::spec_cell(tag, t)), st.2),
            None => st,
        },
        XmlEvent::End(name) => if name@ == closing {
            (st.0, Seq::empty(), st.2.push(st.1))
        } else {
            match st.0 {
                Some(tag) => if tag@ == name@ { (None, st.1, st.2) } else { st },
                None => st,
            }
        },
        XmlEvent::Ref(_) => st,
    }
}

/// The headers a finished table derives from its first sample's cells:
/// each distinct header name, in accumulation order.
pub open spec fn spec_first_headers(cells: Seq<DataCell>) -> Seq<String>
    decreases cells.len(),
{
    if cells.len() == 0 {
        Seq::empty()
    } else {
        let pre = spec_first_headers(cells.drop_last());
        if contains_str(pre, cells.last().spec_header()) {
            pre
        } else {
            pre.push(cells.last().spec_header_string())
        }
    }
}

/// Whether the name is listed exactly.
fn listed_exactly(tags: &Vec<String>, name: &String) -> (r: bool)
    ensures r == contains_str(tags@, name@),
{
    let n = tags.len();
    let mut i: usize = 0;
    while i < n
        invariant
            i <= n,
            forall|j: int| 0 <= j < i ==> (#[trigger] tags@[j])@ != name@,
        decreases n - i,
    {
        if str_eq(tags[i].as_str(), name.as_str()) {
            return true;
        }
        i = i + 1;
    }
    false
}

/// Whether the string starts with the prefix.
fn starts_with_str(s: &String, p: &str) -> (r: bool)
    ensures r == spec_starts_with(s@, p@),
{
    let sl = s.as_str().unicode_len();
    let pl = p.unicode_len();
    if sl < pl {
        return false;
    }
    let mut i: usize = 0;
    while i < pl
        invariant
            i <= pl <= sl,
            pl == p@.len(),
            sl == s@.len(),
            forall|j: int| 0 <= j < i ==> s@[j] == p@[j],
        decreases pl - i,
    {
        if s.as_str().get_char(i) != p.get_char(i) {
            proof {
                assert(s@.take(pl as int)[i as int] != p@[i as int]);
            }
            return false;
        }
        i = i + 1;
    }
    proof {
        assert(s@.take(pl as int) =~= p@);
    }
    true
}

impl Data {
    /// Runs the scan over an event sequence and wraps the completed
    /// samples into a table, with headers derived from the first sample's
    /// cells alone; later samples are assumed, not checked, to share
    /// them.
    pub fn from_xml_events(events: &Vec<XmlEvent>, tags: &Vec<String>, closing: &str)
        -> (r: Data)
        ensures ({
            let st = xml_scan(events@, tags@, closing@);
            &&& r.spec_records().len() == st.2.len()
            &&& forall|i: int| 0 <= i < st.2.len() ==> {
                &&& (#[trigger] r.spec_records()[i]).spec_row_idx() == i
                &&& r.spec_records()[i].spec_cells() == st.2[i]
            }
            &&& r.spec_headers() == spec_first_headers(
                if st.2.len() > 0 { st.2[0] } else { Seq::empty() })
        }),
    {
        let ghost tg = tags@;
        let ghost cl = closing@;
        let n = events.len();
        let mut open_tag: Option<String> = None;
        let mut cells: Vec<DataCell> = Vec::new();
        let mut rows: Vec<DataRow> = Vec::new();
        let mut k: usize = 0;
        while k < n
            invariant
                k <= n,
                n == events@.len(),
                ({
                    let st = xml_scan(events@.take(k as int), tg, cl);
                    &&& open_tag == st.0
                    &&& cells@ == st.1
                    &&& rows@.len() == st.2.len()
                    &&& forall|i: int| 0 <= i < st.2.len() ==> {
                        &&& (#[trigger] rows@[i]).spec_row_idx() == i
                        &&& rows@[i].spec_cells() == st.2[i]
                    }
                }),
            decreases n - k,
        {
            proof {
                assert(events@.take(k + 1).drop_last() =~= events@.take(k as int));
                assert(events@.take(k + 1).last() == events@[k as int]);
            }
            match &events[k] {
                XmlEvent::Start(name) => {
                    let interesting = listed_exactly(tags, name)
                        || starts_with_str(name, "filter-sieving");
                    if interesting {
                        open_tag = Some(name.clone());
                    }
                },
                XmlEvent::Text(t) => {
                    match &open_tag {
                        Some(tag) => {
                            cells.push(DataCell::new(tag, t.clone()));
                        },
                        None => {},
                    }
                },
                XmlEvent::End(name) => {
                    if str_eq(name.as_str(), closing) {
                        let finished = cells;
                        cells = Vec::new();
                        let row = DataRow::new(rows.len(), finished);
                        rows.push(row);
                    } else {
                        let matches_open = match &open_tag {
                            Some(tag) => str_eq(tag.as_str(), name.as_str()),
                            None => false,
                        };
                        if matches_open {
                            open_tag = None;
                        }
                    }
                },
                XmlEvent::Ref(_) => {},
            }
            k = k + 1;
        }
        proof {
            assert(events@.take(n as int) =~= events@);
        }

        // headers come from the first completed sample's cells only
        let mut headers_vec: Vec<String> = Vec::new();
        if rows.len() > 0 {
            let first_row: &DataRow = &rows[0];
            let row_cells = first_row.get_row_data();
            let nc = row_cells.len();
            let mut c: usize = 0;
            while c < nc
                invariant
                    c <= nc,
                    nc == row_cells@.len(),
                    row_cells@ == first_row.spec_cells(),
                    headers_vec@.len()
                        == spec_first_headers(row_cells@.take(c as int)).len(),
                    forall|j: int| 0 <= j < headers_vec@.len()
                        ==> #[trigger] headers_vec@[j]
                            == spec_first_headers(row_cells@.take(c as int))[j],
                decreases nc - c,
            {
                proof {
                    assert(row_cells@.take(c + 1).drop_last() =~= row_cells@.take(c as int));
                    assert(row_cells@.take(c + 1).last() == row_cells@[c as int]);
                }
                let this_header: &String = row_cells[c].get_header();
                let ghost pre = spec_first_headers(row_cells@.take(c as int));
                let mut found = false;
                let mut q: usize = 0;
                let nh = headers_vec.len();
                while q < nh
                    invariant
                        q <= nh,
                        nh == headers_vec@.len(),
                        found <==> exists|j: int| 0 <= j < q
                            && (#[trigger] headers_vec@[j])@ == this_header@,
                    decreases nh - q,
                {
                    if str_eq(headers_vec[q].as_str(), this_header.as_str()) {
                        found = true;
                    }
                    q = q + 1;
                }
                proof {
                    assert(headers_vec@.len() == pre.len());
                    if found {
                        let j = choose|j: int| 0 <= j < headers_vec@.len()
                            && (#[trigger] headers_vec@[j])@ == this_header@;
                        assert(pre[j]@ == this_header@);
                        assert(contains_str(pre, this_header@));
                    }
                    if contains_str(pre, this_header@) {
                        let j = choose|j: int| 0 <= j < pre.len()
                            && (#[trigger] pre[j])@ == this_header@;
                        assert(headers_vec@[j]@ == this_header@);
                    }
                    assert(found == contains_str(
                        pre, row_cells@[c as int].spec_header()));
                }
                if !found {
                    headers_vec.push(this_header.clone());
                }
                c = c + 1;
            }
            proof {
                assert(row_cells@.take(nc as int) =~= row_cells@);
            }
        }
        Data::from_row_data(headers_vec, rows)
    }

    /// Reads markup text into a table in one forward pass.  Tags of
    /// interest default to the sample identifier and its companion tag;
    /// the closing tag defaults to the standard sample terminator.
    /// Malformed markup aborts the parse with a positional failure; no
    /// partial table is returned.  A returned table is exactly the scan
    /// of the named event stream with its references resolved.
    pub fn from_xml_reader(text: &str, tags_to_include: Option<Vec<String>>, closing_tag: Option<&str>)
        -> (r: Result<Data, XmlFault>)
        ensures
            (r is Ok) <==> (xml_stream_of(text@) is Ok),
            r matches Err(f) ==> xml_stream_of(text@) matches Err(f2) && f == f2,
            r matches Ok(d) ==> xml_stream_of(text@) matches Ok(evs)
                && scanned_table_ok(evs@, tags_to_include, spec_closing_tag(closing_tag), d),
            r matches Ok(d) ==> {
                &&& forall|i: int| 0 <= i < d.spec_records().len()
                    ==> (#[trigger] d.spec_records()[i]).spec_row_idx() == i
                &&& d.spec_headers() == spec_first_headers(
                    if d.spec_records().len() > 0 { d.spec_records()[0].spec_cells() }
                    else { Seq::empty() })
            },
    {
        let ghost tags_in = tags_to_include;
        let tags: Vec<String> = match tags_to_include {
            Some(t) => t,
            None => {
                let mut t: Vec<String> = Vec::new();
                t.push(String::from_str("sample-id"));
                t.push(String::from_str("reference"));
                t
            },
        };
        let closing: &str = match closing_tag {
            Some(c) => c,
            None => "sample-result",
        };

        let events = match read_xml_stream(text) {
            Ok(events) => events,
            Err(fault) => {
                return Err(fault);
            },
        };
        let resolved = resolve_refs(&events);
        let data = Data::from_xml_events(&resolved, &tags, closing);
        proof {
            assert(scan_of_resolved_matches(
                events@, resolved@, tags@, spec_closing_tag(closing_tag), data));
        }
        Ok(data)
    }
}

/// The closing tag the reader uses: the caller's, or the standard sample
/// terminator.
pub open spec fn spec_closing_tag(closing_tag: Option<&str>) -> Seq<char> {
    match closing_tag {
        Some(c) => c@,
        None => "sample-result"@,
    }
}

/// The tag list the reader uses: the caller's, or the sample identifier
/// and its companion tag.
pub open spec fn effective_tags(tags_opt: Option<Vec<String>>, tags: Seq<String>) -> bool {
    match tags_opt {
        Some(t) => tags == t@,
        None => tags.len() == 2 && tags[0]@ == "sample-id"@ && tags[1]@ == "reference"@,
    }
}

/// The table is the scan of the given resolved form of the event stream.
pub open spec fn scan_of_resolved_matches(
    evs: Seq<XmlEvent>,
    resolved: Seq<XmlEvent>,
    tags: Seq<String>,
    closing: Seq<char>,
    d: Data,
) -> bool {
    let st = xml_scan(resolved, tags, closing);
    &&& resolved.len() == evs.len()
    &&& (forall|i: int| 0 <= i < evs.len()
        ==> ref_resolution(evs[i], #[trigger] resolved[i]))
    &&& d.spec_records().len() == st.2.len()
    &&& (forall|i: int| 0 <= i < st.2.len() ==> {
        &&& (#[trigger] d.spec_records()[i]).spec_row_idx() == i
        &&& d.spec_records()[i].spec_cells() == st.2[i]
    })
    &&& d.spec_headers() == spec_first_headers(
        if st.2.len() > 0 { st.2[0] } else { Seq::empty() })
}

/// The table is the scan of some reference-resolved form of the event
/// stream, under the effective tags.  Resolution pins every event and
/// every text view; only the identity of the strings it allocates for
/// resolved references is left open.
pub open spec fn scanned_table_ok(
    evs: Seq<XmlEvent>,
    tags_opt: Option<Vec<String>>,
    closing: Seq<char>,
    d: Data,
) -> bool {
    exists|resolved: Seq<XmlEvent>, tags: Seq<String>|
        effective_tags(tags_opt, tags)
            && #[trigger] scan_of_resolved_matches(evs, resolved, tags, closing, d)
}


} // verus!
