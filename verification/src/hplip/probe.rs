//! Discovery and install checks through the HPLIP command-line tools: what `hp-probe`
//! prints, what `models.dat` says, and the scanners the two make.
use vstd::prelude::*;
use vstd::slice::slice_subrange;
use vstd::utf8::encode_utf8;

use crate::keyed::{found, Keyed};
use crate::text;
use crate::text::{
    begins, holds, lines, lower, parse_signed, parse_unsigned, split_on, split_once, trim,
};

verus! {

// ------------------------------------------------------------------------- escape codes

/// Whether a byte is an ASCII letter.
pub open spec fn is_letter(b: u8) -> bool {
    0x41 <= b <= 0x5a || 0x61 <= b <= 0x7a
}

/// What stands behind the first letter.
pub open spec fn behind_letter(b: Seq<u8>) -> Seq<u8>
    decreases b.len(),
{
    if b.len() == 0 {
        b
    } else if is_letter(b[0]) {
        b.skip(1)
    } else {
        behind_letter(b.skip(1))
    }
}

/// What stands behind the first letter is no longer than all of it.
pub proof fn lemma_behind_letter(b: Seq<u8>)
    ensures
        behind_letter(b).len() <= b.len(),
    decreases b.len(),
{
    if b.len() > 0 && !is_letter(b[0]) {
        lemma_behind_letter(b.skip(1));
    }
}

/// Bytes without terminal control sequences, each as the character with its number.
pub open spec fn plain_text(b: Seq<u8>) -> Seq<char>
    decreases b.len(),
{
    if b.len() == 0 {
        seq![]
    } else if b[0] == 0x1b {
        proof {
            lemma_behind_letter(b.skip(2));
        }
        if b.len() > 1 && b[1] == 0x5b {
            plain_text(behind_letter(b.skip(2)))
        } else {
            plain_text(b.skip(1))
        }
    } else {
        seq![b[0] as char] + plain_text(b.skip(1))
    }
}

/// A line without terminal control sequences.
pub fn strip_ansi(input: &str) -> (r: String)
    ensures
        r@ == plain_text(encode_utf8(input@)),
{
    let bytes = input.as_bytes();
    let mut out = String::new();
    let mut rest = bytes;
    assert(out@ + plain_text(rest@) =~= plain_text(bytes@));
    while rest.len() > 0
        invariant
            out@ + plain_text(rest@) =~= plain_text(bytes@),
        decreases rest@.len(),
    {
        let ghost before = rest@;
        if rest[0] == 0x1b {
            if rest.len() > 1 && rest[1] == 0x5b {
                let mut tail = slice_subrange(rest, 2, rest.len());
                assert(tail@ =~= before.skip(2));
                let mut found = false;
                while !found && tail.len() > 0
                    invariant
                        found ==> tail@ == behind_letter(before.skip(2)),
                        !found ==> behind_letter(tail@) == behind_letter(before.skip(2)),
                        tail@.len() < before.len(),
                    decreases tail@.len() + if found {
                        0int
                    } else {
                        1int
                    },
                {
                    let b: u8 = tail[0];
                    let next = slice_subrange(tail, 1, tail.len());
                    assert(next@ =~= tail@.skip(1));
                    if (0x41 <= b && b <= 0x5a) || (0x61 <= b && b <= 0x7a) {
                        found = true;
                    }
                    tail = next;
                }
                rest = tail;
            } else {
                let tail = slice_subrange(rest, 1, rest.len());
                assert(tail@ =~= before.skip(1));
                rest = tail;
            }
        } else {
            out.push(rest[0] as char);
            let tail = slice_subrange(rest, 1, rest.len());
            assert(tail@ =~= before.skip(1));
            rest = tail;
        }
    }
    out
}

// -------------------------------------------------------------------------- probe output

/// One device of a probe's table.
#[derive(Debug, Clone, PartialEq, Eq)]
pub struct ProbeRecord {
    pub device_uri: String,
    pub model_name: String,
    pub display_name: String,
}

/// What a [`ProbeRecord`] says.
pub struct ProbeRecordView {
    pub device_uri: Seq<char>,
    pub model_name: Seq<char>,
    pub display_name: Seq<char>,
}

impl View for ProbeRecord {
    type V = ProbeRecordView;

    open spec fn view(&self) -> ProbeRecordView {
        ProbeRecordView {
            device_uri: self.device_uri@,
            model_name: self.model_name@,
            display_name: self.display_name@,
        }
    }
}

/// What several records say.
pub open spec fn record_views(v: Seq<ProbeRecord>) -> Seq<ProbeRecordView> {
    v.map_values(|r: ProbeRecord| r@)
}

/// Where in a probe's output a line stands: whether inside a table, and whether the table
/// has a column of names.
#[derive(Debug, Clone, Copy, PartialEq, Eq, Structural)]
pub struct TableState {
    pub in_table: bool,
    pub expects_name: bool,
}

/// The pieces that are not blank.
pub open spec fn filled(parts: Seq<Seq<char>>) -> Seq<Seq<char>>
    decreases parts.len(),
{
    if parts.len() == 0 {
        seq![]
    } else {
        let front = filled(parts.drop_last());
        if trim(parts.last()).len() > 0 {
            front.push(parts.last())
        } else {
            front
        }
    }
}

/// The columns of a row: what stands between two spaces or more.
pub open spec fn columns_of(row: Seq<char>) -> Seq<Seq<char>> {
    filled(split_on(row, "  "@))
}

/// The device that a row of a table says, if it says one.
pub open spec fn row_record(row: Seq<char>, expects_name: bool) -> Option<ProbeRecordView> {
    let columns = columns_of(row);
    if columns.len() < if expects_name {
        3int
    } else {
        2int
    } {
        None
    } else if !begins(trim(columns[0]), "hp:/"@) {
        None
    } else {
        Some(
            ProbeRecordView {
                device_uri: trim(columns[0]),
                model_name: trim(columns[1]),
                display_name: if expects_name {
                    trim(columns[2])
                } else {
                    trim(columns[1])
                },
            },
        )
    }
}

/// Where the next line stands, and the device that this one says.
pub open spec fn line_step(s: TableState, line: Seq<char>) -> (TableState, Option<ProbeRecordView>) {
    if line.len() == 0 {
        (TableState { in_table: false, ..s }, None)
    } else if begins(line, "Device URI"@) && holds(line, "Model"@) {
        (TableState { in_table: true, expects_name: holds(line, "Name"@) }, None)
    } else if !s.in_table || begins(line, "-"@) || begins(line, "Found "@) {
        (s, None)
    } else {
        (s, row_record(line, s.expects_name))
    }
}

/// What is left of a line to read: no control sequences, no white space around it.
pub open spec fn readable(line: Seq<char>) -> Seq<char> {
    trim(plain_text(encode_utf8(line)))
}

/// Where the line behind several lines stands.
pub open spec fn table_after(all: Seq<Seq<char>>) -> TableState
    decreases all.len(),
{
    if all.len() == 0 {
        TableState { in_table: false, expects_name: false }
    } else {
        line_step(table_after(all.drop_last()), readable(all.last())).0
    }
}

/// The devices that several lines say.
pub open spec fn records_in(all: Seq<Seq<char>>) -> Seq<ProbeRecordView>
    decreases all.len(),
{
    if all.len() == 0 {
        seq![]
    } else {
        let front = records_in(all.drop_last());
        match line_step(table_after(all.drop_last()), readable(all.last())).1 {
            Some(r) => front.push(r),
            None => front,
        }
    }
}

fn columns(row: &[char]) -> (r: Vec<Vec<char>>)
    ensures
        text::all_views(r@) == columns_of(row@),
{
    let sep = text::chars("  ");
    proof {
        reveal_strlit("  ");
    }
    let parts = text::pieces_on(row, sep.as_slice());
    let ghost all = text::all_views(parts@);
    let mut out: Vec<Vec<char>> = Vec::new();
    let mut i: usize = 0;
    assert(all.take(0) =~= Seq::<Seq<char>>::empty());
    assert(text::all_views(out@) =~= seq![]);
    while i < parts.len()
        invariant
            i <= parts@.len(),
            all == text::all_views(parts@),
            text::all_views(out@) == filled(all.take(i as int)),
        decreases parts@.len() - i,
    {
        let ghost before = out@;
        proof {
            assert(all.take(i + 1).last() == parts@[i as int]@);
            assert(all.take(i + 1).drop_last() =~= all.take(i as int));
        }
        if text::trimmed(parts[i].as_slice()).len() > 0 {
            out.push(text::to_vec(parts[i].as_slice()));
            assert(text::all_views(out@) =~= text::all_views(before).push(parts@[i as int]@));
        }
        i = i + 1;
    }
    assert(all.take(i as int) =~= all);
    out
}

fn parse_row(row: &[char], expects_name: bool) -> (r: Option<ProbeRecord>)
    ensures
        match r {
            Some(x) => row_record(row@, expects_name) == Some(x@),
            None => row_record(row@, expects_name) is None,
        },
{
    let cells = columns(row);
    let ghost all = text::all_views(cells@);
    let wanted: usize = if expects_name {
        3
    } else {
        2
    };
    if cells.len() < wanted {
        return None;
    }
    assert(all[0] == cells@[0]@ && all[1] == cells@[1]@);
    let device_uri = text::trimmed(cells[0].as_slice());
    let prefix = text::chars("hp:/");
    if !text::begins_with(device_uri, prefix.as_slice()) {
        return None;
    }
    let model_name = text::from_chars(text::trimmed(cells[1].as_slice()));
    let display_name = if expects_name {
        assert(all[2] == cells@[2]@);
        text::from_chars(text::trimmed(cells[2].as_slice()))
    } else {
        model_name.clone()
    };
    Some(ProbeRecord { device_uri: text::from_chars(device_uri), model_name, display_name })
}

/// The devices that a probe's output lists.
pub fn parse_probe_output(output: &str) -> (r: Vec<ProbeRecord>)
    ensures
        record_views(r@) == records_in(lines(output@)),
{
    let rows = text::all_lines(output);
    let ghost all = text::all_views(rows@);
    let mut records: Vec<ProbeRecord> = Vec::new();
    let mut in_table = false;
    let mut expects_name = false;
    let mut i: usize = 0;
    assert(all.take(0) =~= Seq::<Seq<char>>::empty());
    assert(record_views(records@) =~= seq![]);
    while i < rows.len()
        invariant
            i <= rows@.len(),
            all == text::all_views(rows@),
            table_after(all.take(i as int)) == (TableState { in_table, expects_name }),
            record_views(records@) == records_in(all.take(i as int)),
        decreases rows@.len() - i,
    {
        let ghost before = records@;
        proof {
            assert(all.take(i + 1).last() == rows@[i as int]@);
            assert(all.take(i + 1).drop_last() =~= all.take(i as int));
        }
        let stripped = strip_ansi(text::from_chars(rows[i].as_slice()).as_str());
        let line = text::trim_text(stripped.as_str());
        if line.as_str().is_empty() {
            in_table = false;
        } else if text::starts_with(line.as_str(), "Device URI") && text::contains(
            line.as_str(),
            "Model",
        ) {
            in_table = true;
            expects_name = text::contains(line.as_str(), "Name");
        } else if !in_table || text::starts_with(line.as_str(), "-") || text::starts_with(
            line.as_str(),
            "Found ",
        ) {
        } else {
            let row = text::chars(line.as_str());
            match parse_row(row.as_slice(), expects_name) {
                Some(record) => {
                    let ghost said = record@;
                    records.push(record);
                    assert(record_views(records@) =~= record_views(before).push(said));
                },
                None => {},
            }
        }
        i = i + 1;
    }
    assert(all.take(i as int) =~= all);
    records
}

// -------------------------------------------------------------------------------- models

/// What `models.dat` says of a model.
#[derive(Debug, Clone, Copy, PartialEq, Eq, Structural)]
pub struct ModelInfo {
    pub scan_type: i32,
    pub scan_src: u32,
    pub plugin: i32,
    pub plugin_reason: u32,
}

/// What is said of a model of which nothing is said.
pub open spec fn no_model_info() -> ModelInfo {
    ModelInfo { scan_type: 0, scan_src: 0, plugin: 0, plugin_reason: 0 }
}

impl Default for ModelInfo {
    fn default() -> (r: Self)
        ensures
            r == no_model_info(),
    {
        ModelInfo { scan_type: 0, scan_src: 0, plugin: 0, plugin_reason: 0 }
    }
}

/// HP's model list: what is said of each model, by its section name.
pub type Models = Keyed<ModelInfo>;

/// How far `models.dat` has been read: what it said, and the section it is in.
pub struct ModelsState {
    pub models: Map<Seq<char>, ModelInfo>,
    pub section: Option<Seq<char>>,
}

/// The name of the section that a line opens, if it opens one.
pub open spec fn section_of(line: Seq<char>) -> Option<Seq<char>> {
    if line.len() >= 2 && line[0] == '[' && line.last() == ']' {
        Some(lower(trim(line.subrange(1, line.len() - 1))))
    } else {
        None
    }
}

/// A signed number, or zero where a text says none.
pub open spec fn signed_or_zero(s: Seq<char>) -> i32 {
    match parse_signed(s) {
        Some(n) => n as i32,
        None => 0,
    }
}

/// An unsigned number, or zero where a text says none.
pub open spec fn unsigned_or_zero(s: Seq<char>) -> u32 {
    match parse_unsigned(s, u32::MAX as nat) {
        Some(n) => n as u32,
        None => 0,
    }
}

/// What is said of a model, with one field set.
pub open spec fn field_set(m: ModelInfo, key: Seq<char>, value: Seq<char>) -> ModelInfo {
    if key == "scan-type"@ {
        ModelInfo { scan_type: signed_or_zero(value), ..m }
    } else if key == "scan-src"@ {
        ModelInfo { scan_src: unsigned_or_zero(value), ..m }
    } else if key == "plugin"@ {
        ModelInfo { plugin: signed_or_zero(value), ..m }
    } else if key == "plugin-reason"@ {
        ModelInfo { plugin_reason: unsigned_or_zero(value), ..m }
    } else {
        m
    }
}

/// What is said of a model in a list, or nothing in particular.
pub open spec fn model_or_default(m: Map<Seq<char>, ModelInfo>, key: Seq<char>) -> ModelInfo {
    match found(m, key) {
        Some(info) => info,
        None => no_model_info(),
    }
}

/// One line of `models.dat`.
pub open spec fn models_step(s: ModelsState, raw: Seq<char>) -> ModelsState {
    let line = trim(raw);
    if line.len() == 0 || line[0] == '#' {
        s
    } else {
        match section_of(line) {
            Some(name) => ModelsState {
                models: s.models.insert(name, model_or_default(s.models, name)),
                section: Some(name),
            },
            None => match (s.section, split_once(line, '=')) {
                (Some(section), Some((key, value))) => ModelsState {
                    models: s.models.insert(
                        section,
                        field_set(model_or_default(s.models, section), trim(key), trim(value)),
                    ),
                    ..s
                },
                _ => s,
            },
        }
    }
}

/// What several lines of `models.dat` say.
pub open spec fn models_after(all: Seq<Seq<char>>) -> ModelsState
    decreases all.len(),
{
    if all.len() == 0 {
        ModelsState { models: Map::empty(), section: None }
    } else {
        models_step(models_after(all.drop_last()), all.last())
    }
}

fn set_field(m: ModelInfo, key: &[char], value: &[char]) -> (r: ModelInfo)
    ensures
        r == field_set(m, key@, value@),
{
    let name = text::from_chars(key);
    let mut out = m;
    let signed: i32 = match text::signed_number(value) {
        Some(n) => n,
        None => 0,
    };
    let unsigned: u32 = match text::number(value, 0xffff_ffff) {
        Some(n) => n as u32,
        None => 0,
    };
    if text::same(name.as_str(), "scan-type") {
        out.scan_type = signed;
    } else if text::same(name.as_str(), "scan-src") {
        out.scan_src = unsigned;
    } else if text::same(name.as_str(), "plugin") {
        out.plugin = signed;
    } else if text::same(name.as_str(), "plugin-reason") {
        out.plugin_reason = unsigned;
    }
    out
}

/// What the content of `models.dat` says.
pub fn load_models(content: &str) -> (r: Models)
    ensures
        r@ == models_after(lines(content@)).models,
{
    let rows = text::all_lines(content);
    let ghost all = text::all_views(rows@);
    let mut models: Models = Keyed::new();
    let mut section: Option<String> = None;
    let mut i: usize = 0;
    assert(all.take(0) =~= Seq::<Seq<char>>::empty());
    while i < rows.len()
        invariant
            i <= rows@.len(),
            all == text::all_views(rows@),
            models_after(all.take(i as int)).models == models@,
            match models_after(all.take(i as int)).section {
                Some(n) => section matches Some(x) && x@ == n,
                None => section is None,
            },
        decreases rows@.len() - i,
    {
        proof {
            assert(all.take(i + 1).last() == rows@[i as int]@);
            assert(all.take(i + 1).drop_last() =~= all.take(i as int));
        }
        let line = text::trimmed(rows[i].as_slice());
        i = i + 1;
        if line.len() == 0 || line[0] == '#' {
            continue ;
        }
        if line.len() >= 2 && line[0] == '[' && line[line.len() - 1] == ']' {
            let inner = slice_subrange(line, 1, line.len() - 1);
            let name = text::from_chars(text::lowered(text::trimmed(inner)).as_slice());
            let info = match models.get(name.as_str()) {
                Some(m) => *m,
                None => ModelInfo::default(),
            };
            models.insert(name.clone(), info);
            section = Some(name);
            continue ;
        }
        match (&section, text::halves(line, '=')) {
            (Some(name), Some((key, value))) => {
                let info = match models.get(name.as_str()) {
                    Some(m) => *m,
                    None => ModelInfo::default(),
                };
                let set = set_field(info, text::trimmed(key), text::trimmed(value));
                models.insert(name.clone(), set);
            },
            _ => {},
        }
    }
    assert(all.take(i as int) =~= all);
    models
}

// ---------------------------------------------------------------------------------- laws

/// Every device that a probe's output lists is named by an `hp:/` URI.
pub proof fn law_only_hp_devices_are_listed(all: Seq<Seq<char>>, i: int)
    requires
        0 <= i < records_in(all).len(),
    ensures
        begins(records_in(all)[i].device_uri, "hp:/"@),
    decreases all.len(),
{
    if all.len() > 0 {
        let front = records_in(all.drop_last());
        if i < front.len() {
            law_only_hp_devices_are_listed(all.drop_last(), i);
        }
    }
}

/// So many spaces.
pub open spec fn spaces(n: nat) -> Seq<char> {
    Seq::new(n, |i: int| ' ')
}

/// Whether a text can stand in a column: something, without white space around it and without
/// two spaces together.
pub open spec fn is_cell(c: Seq<char>) -> bool {
    &&& c.len() > 0 && !text::is_white(c[0]) && !text::is_white(c.last())
    &&& forall|j: int| 0 <= j < c.len() - 1 ==> !(#[trigger] c[j] == ' ' && c[j + 1] == ' ')
}

/// Whether a line is a column with two spaces or more behind it, and then the rest.
pub open spec fn is_column_before(line: Seq<char>, column: Seq<char>, rest: Seq<char>) -> bool {
    &&& is_cell(column) && rest.len() > 0 && rest[0] != ' '
    &&& exists|g: nat| g >= 2 && line == column + #[trigger] spaces(g) + rest
}

/// Whether a line begins with a column, whatever columns are behind it.
pub open spec fn is_column_at(line: Seq<char>, column: Seq<char>) -> bool {
    is_cell(column) && (line == column || exists|rest: Seq<char>| #[trigger]
        is_column_before(line, column, rest))
}

/// Whether a line is the row of a device: the columns that the header calls for, with two
/// spaces or more between them, whatever columns are behind those.
pub open spec fn is_row_of(line: Seq<char>, device: ProbeRecordView, named: bool) -> bool {
    &&& begins(device.device_uri, "hp:/"@)
    &&& exists|rest: Seq<char>| #[trigger]
        is_column_before(line, device.device_uri, rest) && (if named {
            exists|last: Seq<char>| #[trigger]
                is_column_before(rest, device.model_name, last) && is_column_at(
                    last,
                    device.display_name,
                )
        } else {
            is_column_at(rest, device.model_name) && device.display_name == device.model_name
        })
}

/// Whether a line of a table is passed over: a rule, a count, or a row of which the first
/// column is no HP device, or which has too few columns.
pub open spec fn is_passed_over(line: Seq<char>, named: bool) -> bool {
    ||| line.len() > 0 && line[0] == '-'
    ||| begins(line, "Found "@)
    ||| is_cell(line) && !begins(line, "Device URI"@)
    ||| exists|first: Seq<char>, g: nat, second: Seq<char>|
        #![trigger is_cell(first), is_cell(second), spaces(g)]
        g >= 2 && is_cell(first) && is_cell(second) && line == first + spaces(g) + second && !begins(
            line,
            "Device URI"@,
        ) && (named || !begins(first, "hp:/"@))
}

/// What is there of several things that may be.
pub open spec fn those_there<T>(all: Seq<Option<T>>) -> Seq<T>
    decreases all.len(),
{
    if all.len() == 0 {
        seq![]
    } else {
        match all.last() {
            Some(x) => those_there(all.drop_last()).push(x),
            None => those_there(all.drop_last()),
        }
    }
}

/// The columns of a row, each without the white space around it.
spec fn cells_of(row: Seq<char>) -> Seq<Seq<char>> {
    columns_of(row).map_values(|c: Seq<char>| trim(c))
}

proof fn lemma_filled_sum(a: Seq<Seq<char>>, b: Seq<Seq<char>>)
    ensures
        filled(a + b) == filled(a) + filled(b),
    decreases b.len(),
{
    if b.len() == 0 {
        assert(a + b =~= a);
        assert(filled(a) + filled(b) =~= filled(a));
    } else {
        assert((a + b).drop_last() =~= a + b.drop_last());
        assert((a + b).last() == b.last());
        lemma_filled_sum(a, b.drop_last());
        assert(filled(a) + filled(b.drop_last()).push(b.last()) =~= (filled(a) + filled(
            b.drop_last(),
        )).push(b.last()));
    }
}

proof fn lemma_filled_one(p: Seq<char>)
    ensures
        filled(seq![p]) =~= (if trim(p).len() > 0 {
            seq![p]
        } else {
            seq![]
        }),
{
    assert(seq![p].drop_last() =~= seq![]);
    assert(filled(seq![p].drop_last()) =~= seq![]);
}

proof fn lemma_no_pair_in_cell(c: Seq<char>, rest: Seq<char>)
    requires
        is_cell(c),
    ensures
        forall|j: int| 0 <= j < c.len() ==> !text::occurs_at(c + rest, "  "@, j),
        rest.len() == 0 ==> text::find(c, "  "@) is None,
{
    reveal_strlit("  ");
    let s = c + rest;
    assert forall|j: int| 0 <= j < c.len() implies !text::occurs_at(s, "  "@, j) by {
        if text::occurs_at(s, "  "@, j) {
            assert(s.subrange(j, j + 2)[0] == s[j] && s.subrange(j, j + 2)[1] == s[j + 1]);
            assert("  "@[0] == ' ' && "  "@[1] == ' ');
            assert(text::is_white(' '));
            assert(s[j] == c[j]);
            if j + 1 < c.len() {
                assert(s[j + 1] == c[j + 1]);
            }
        }
    }
    text::lemma_find(c, "  "@);
    if rest.len() == 0 {
        assert(s =~= c);
        match text::find(c, "  "@) {
            Some(i) => {
                assert(text::occurs_at(s, "  "@, i));
            },
            None => {},
        }
    }
}

proof fn lemma_one_cell(c: Seq<char>)
    requires
        is_cell(c),
    ensures
        cells_of(c) =~= seq![c],
{
    lemma_no_pair_in_cell(c, seq![]);
    text::lemma_trim_nothing(c);
    lemma_filled_one(c);
}

proof fn lemma_leading_spaces(m: nat, s: Seq<char>)
    requires
        s.len() > 0,
        s[0] != ' ',
    ensures
        cells_of(spaces(m) + s) == cells_of(s),
    decreases m,
{
    reveal_strlit("  ");
    let t = spaces(m) + s;
    if m == 0 {
        assert(t =~= s);
    } else if m == 1 {
        assert forall|j: int| j >= 0 implies text::occurs_at(t, "  "@, j + 1) == text::occurs_at(
            s,
            "  "@,
            j,
        ) by {
            if j + 2 <= s.len() {
                assert(t.subrange(j + 1, j + 3) =~= s.subrange(j, j + 2));
            }
        }
        assert(!text::occurs_at(t, "  "@, 0)) by {
            if text::occurs_at(t, "  "@, 0) {
                assert(t.subrange(0, 2)[1] == s[0]);
                assert("  "@[1] == ' ');
            }
        }
        assert(t.drop_first() =~= s);
        text::lemma_find(s, "  "@);
        let parts = split_on(s, "  "@);
        let more = split_on(t, "  "@);
        match text::find(s, "  "@) {
            Some(i) => {
                let head = s.take(i);
                let tail = split_on(s.skip(i + 2), "  "@);
                assert(text::find(t, "  "@) == Some(i + 1));
                assert(t.take(i + 1) =~= seq![' '] + head);
                assert(t.skip(i + 3) =~= s.skip(i + 2));
                lemma_space_in_front(head);
                lemma_filled_sum(seq![head], tail);
                lemma_filled_sum(seq![seq![' '] + head], tail);
                lemma_filled_one(head);
                lemma_filled_one(seq![' '] + head);
                assert(cells_of(t) =~= cells_of(s));
            },
            None => {
                assert(text::find(t, "  "@) is None);
                assert(t =~= seq![' '] + s);
                lemma_space_in_front(s);
                lemma_filled_one(s);
                lemma_filled_one(seq![' '] + s);
                assert(cells_of(t) =~= cells_of(s));
            },
        }
    } else {
        let less = spaces((m - 2) as nat) + s;
        assert(t.subrange(0, 2) =~= "  "@);
        assert(t.skip(2) =~= less);
        assert(t.take(0) =~= seq![]);
        lemma_leading_spaces((m - 2) as nat, s);
        let nothing = Seq::<char>::empty();
        lemma_filled_sum(seq![nothing], split_on(less, "  "@));
        lemma_filled_one(nothing);
        assert(trim(nothing).len() == 0);
        assert(columns_of(t) =~= columns_of(less));
    }
}

proof fn lemma_space_in_front(p: Seq<char>)
    ensures
        trim(seq![' '] + p) == trim(p),
{
    let s = seq![' '] + p;
    assert(text::is_white(s[0]));
    assert(s.drop_first() =~= p);
}

proof fn lemma_first_cell(c: Seq<char>, g: nat, rest: Seq<char>)
    requires
        is_cell(c),
        g >= 2,
        rest.len() > 0,
        rest[0] != ' ',
    ensures
        cells_of(c + spaces(g) + rest) == seq![c] + cells_of(rest),
{
    reveal_strlit("  ");
    let behind = spaces((g - 2) as nat) + rest;
    let s = c + spaces(g) + rest;
    assert(s =~= c + ("  "@ + behind));
    lemma_no_pair_in_cell(c, "  "@ + behind);
    assert(s.subrange(c.len() as int, c.len() as int + 2) =~= "  "@);
    text::lemma_find_is(s, "  "@, c.len() as int);
    assert(s.take(c.len() as int) =~= c);
    assert(s.skip(c.len() as int + 2) =~= behind);
    text::lemma_trim_nothing(c);
    lemma_filled_sum(seq![c], split_on(behind, "  "@));
    lemma_filled_one(c);
    lemma_leading_spaces((g - 2) as nat, rest);
    assert(cells_of(s) =~= seq![c] + cells_of(behind));
}

/// What the columns of a row are: with two spaces or more between them, whatever is in them.
pub proof fn law_columns_stand_two_spaces_apart(
    first: Seq<char>,
    g: nat,
    second: Seq<char>,
    h: nat,
    third: Seq<char>,
)
    requires
        is_cell(first) && is_cell(second) && is_cell(third),
        g >= 2 && h >= 2,
    ensures
        ({
            let columns = columns_of(first + spaces(g) + (second + spaces(h) + third));
            &&& columns.len() == 3
            &&& trim(columns[0]) == first && trim(columns[1]) == second && trim(columns[2]) == third
        }),
        ({
            let columns = columns_of(first + spaces(g) + second);
            columns.len() == 2 && trim(columns[0]) == first && trim(columns[1]) == second
        }),
        columns_of(first).len() == 1,
{
    let two = second + spaces(h) + third;
    let row = first + spaces(g) + two;
    assert(text::is_white(' '));
    assert(two[0] == second[0]);
    lemma_one_cell(first);
    lemma_one_cell(second);
    lemma_one_cell(third);
    lemma_first_cell(second, h, third);
    lemma_first_cell(first, g, two);
    lemma_first_cell(first, g, second);
    assert(cells_of(row) =~= seq![first, second, third]);
    assert(cells_of(first + spaces(g) + second) =~= seq![first, second]);
    assert(cells_of(row)[0] == trim(columns_of(row)[0]));
    assert(cells_of(row)[1] == trim(columns_of(row)[1]));
    assert(cells_of(row)[2] == trim(columns_of(row)[2]));
    let short = first + spaces(g) + second;
    assert(cells_of(short)[0] == trim(columns_of(short)[0]));
    assert(cells_of(short)[1] == trim(columns_of(short)[1]));
    assert(columns_of(first).len() == cells_of(first).len());
}

proof fn lemma_cells(row: Seq<char>)
    ensures
        columns_of(row).len() == cells_of(row).len(),
        forall|i: int|
            0 <= i < columns_of(row).len() ==> trim(#[trigger] columns_of(row)[i]) == cells_of(
                row,
            )[i],
{
}

proof fn lemma_column_before(line: Seq<char>, column: Seq<char>, rest: Seq<char>)
    requires
        is_column_before(line, column, rest),
    ensures
        cells_of(line) == seq![column] + cells_of(rest),
        line.len() > 0 && line[0] == column[0],
{
    let g = choose|g: nat| g >= 2 && line == column + #[trigger] spaces(g) + rest;
    lemma_first_cell(column, g, rest);
}

proof fn lemma_column_at(line: Seq<char>, column: Seq<char>)
    requires
        is_column_at(line, column),
    ensures
        cells_of(line).len() >= 1,
        cells_of(line)[0] == column,
{
    if line == column {
        lemma_one_cell(column);
    } else {
        let rest = choose|rest: Seq<char>| #[trigger] is_column_before(line, column, rest);
        lemma_column_before(line, column, rest);
    }
}

/// In a table, the row of a device says that device, and nothing ends the table but a line
/// without anything in it.
proof fn lemma_row(s: TableState, line: Seq<char>, listed: Option<ProbeRecordView>)
    requires
        s.in_table,
        match listed {
            Some(d) => is_row_of(line, d, s.expects_name),
            None => is_passed_over(line, s.expects_name),
        },
    ensures
        line_step(s, line) == (s, listed),
{
    reveal_strlit("hp:/");
    reveal_strlit("-");
    reveal_strlit("Found ");
    reveal_strlit("Device URI");
    assert("Device URI"@[0] == 'D' && "hp:/"@[0] == 'h' && "-"@[0] == '-' && "Found "@[0] == 'F');
    match listed {
        Some(d) => {
            let rest = choose|rest: Seq<char>| #[trigger]
                is_column_before(line, d.device_uri, rest) && (if s.expects_name {
                    exists|last: Seq<char>| #[trigger]
                        is_column_before(rest, d.model_name, last) && is_column_at(
                            last,
                            d.display_name,
                        )
                } else {
                    is_column_at(rest, d.model_name) && d.display_name == d.model_name
                });
            lemma_column_before(line, d.device_uri, rest);
            lemma_cells(line);
            if s.expects_name {
                let last = choose|last: Seq<char>| #[trigger]
                    is_column_before(rest, d.model_name, last) && is_column_at(
                        last,
                        d.display_name,
                    );
                lemma_column_before(rest, d.model_name, last);
                lemma_column_at(last, d.display_name);
                assert(cells_of(line)[2] == cells_of(last)[0]);
                assert(cells_of(line)[1] == cells_of(rest)[0]);
            } else {
                lemma_column_at(rest, d.model_name);
                assert(cells_of(line)[1] == cells_of(rest)[0]);
            }
            assert(cells_of(line)[0] == d.device_uri);
            assert(d.device_uri[0] == line[0]);
            assert(d.device_uri.take(4)[0] == d.device_uri[0]);
            assert(line[0] == 'h');
            if begins(line, "Device URI"@) {
                assert(line.take(10)[0] == 'D');
            }
            if begins(line, "-"@) {
                assert(line.take(1)[0] == '-');
            }
            if begins(line, "Found "@) {
                assert(line.take(6)[0] == 'F');
            }
        },
        None => {
            if line.len() > 0 && line[0] == '-' {
                assert(line.take(1) =~= "-"@);
                if begins(line, "Device URI"@) {
                    assert(line.take(10)[0] == 'D');
                }
            } else if begins(line, "Found "@) {
                assert(line.take(6)[0] == line[0]);
                if begins(line, "Device URI"@) {
                    assert(line.take(10)[0] == 'D');
                }
            } else if is_cell(line) && !begins(line, "Device URI"@) {
                lemma_one_cell(line);
                assert(columns_of(line).len() == cells_of(line).len());
            } else {
                let (first, g, second) = choose|first: Seq<char>, g: nat, second: Seq<char>|
                    #![trigger is_cell(first), is_cell(second), spaces(g)]
                    g >= 2 && is_cell(first) && is_cell(second) && line == first + spaces(g)
                        + second && !begins(line, "Device URI"@) && (s.expects_name || !begins(
                        first,
                        "hp:/"@,
                    ));
                law_columns_stand_two_spaces_apart(first, g, second, g, second);
            }
        },
    }
}

/// Every device of a table is listed, however many there are: behind a header, the rows of
/// devices give those devices, in order, with whatever rules, counts and rows of other devices
/// stand between them; and what stood before the table changes nothing of that.
pub proof fn law_every_row_of_a_table_is_listed(
    before: Seq<Seq<char>>,
    header: Seq<char>,
    rows: Seq<Seq<char>>,
    devices: Seq<Option<ProbeRecordView>>,
)
    requires
        begins(readable(header), "Device URI"@) && holds(readable(header), "Model"@),
        rows.len() == devices.len(),
        forall|i: int|
            0 <= i < rows.len() ==> match #[trigger] devices[i] {
                Some(d) => is_row_of(readable(rows[i]), d, holds(readable(header), "Name"@)),
                None => is_passed_over(readable(rows[i]), holds(readable(header), "Name"@)),
            },
    ensures
        records_in(before.push(header) + rows) == records_in(before) + those_there(devices),
        table_after(before.push(header) + rows) == (TableState {
            in_table: true,
            expects_name: holds(readable(header), "Name"@),
        }),
    decreases rows.len(),
{
    reveal_strlit("Device URI");
    let all = before.push(header) + rows;
    if rows.len() == 0 {
        assert(all =~= before.push(header));
        assert(all.drop_last() =~= before);
        assert(records_in(before) + those_there(devices) =~= records_in(before));
    } else {
        let fewer = rows.drop_last();
        let others = devices.drop_last();
        assert forall|i: int| 0 <= i < fewer.len() implies match #[trigger] others[i] {
            Some(d) => is_row_of(readable(fewer[i]), d, holds(readable(header), "Name"@)),
            None => is_passed_over(readable(fewer[i]), holds(readable(header), "Name"@)),
        } by {
            assert(others[i] == devices[i] && fewer[i] == rows[i]);
        }
        law_every_row_of_a_table_is_listed(before, header, fewer, others);
        assert(all.drop_last() =~= before.push(header) + fewer);
        assert(all.last() == rows.last());
        assert(devices[devices.len() - 1] == devices.last() && rows[rows.len() - 1] == rows.last());
        lemma_row(table_after(all.drop_last()), readable(rows.last()), devices.last());
        match devices.last() {
            Some(d) => {
                assert((records_in(before) + those_there(others)).push(d) =~= records_in(before)
                    + those_there(others).push(d));
            },
            None => {},
        }
    }
}

/// Behind a line without anything in it, as before the first header, nothing is listed until
/// a header comes.
pub proof fn law_nothing_outside_a_table_is_listed(before: Seq<Seq<char>>, rows: Seq<Seq<char>>)
    requires
        before.len() == 0 || readable(before.last()).len() == 0,
        forall|i: int|
            0 <= i < rows.len() ==> !(begins(#[trigger] readable(rows[i]), "Device URI"@) && holds(
                readable(rows[i]),
                "Model"@,
            )),
    ensures
        records_in(before + rows) == records_in(before),
        !table_after(before + rows).in_table,
    decreases rows.len(),
{
    reveal_strlit("Device URI");
    let all = before + rows;
    if rows.len() == 0 {
        assert(all =~= before);
    } else {
        let fewer = rows.drop_last();
        assert forall|i: int| 0 <= i < fewer.len() implies !(begins(
            #[trigger] readable(fewer[i]),
            "Device URI"@,
        ) && holds(readable(fewer[i]), "Model"@)) by {
            assert(fewer[i] == rows[i]);
            assert(!(begins(readable(rows[i]), "Device URI"@) && holds(
                readable(rows[i]),
                "Model"@,
            )));
        }
        law_nothing_outside_a_table_is_listed(before, fewer);
        assert(all.drop_last() =~= before + fewer);
        assert(all.last() == rows[rows.len() - 1]);
        let last = readable(rows[rows.len() - 1]);
        assert(!(begins(last, "Device URI"@) && holds(last, "Model"@)));
    }
}

/// Whether a text is printable ASCII, so that a terminal shows it as it is.
pub open spec fn is_printable(s: Seq<char>) -> bool {
    forall|i: int| 0 <= i < s.len() ==> 0x20 <= (#[trigger] s[i]) as u32 <= 0x7e
}

proof fn lemma_plain_bytes(b: Seq<u8>)
    requires
        forall|i: int| 0 <= i < b.len() ==> #[trigger] b[i] != 0x1b,
    ensures
        plain_text(b) =~= Seq::new(b.len(), |i: int| b[i] as char),
    decreases b.len(),
{
    if b.len() > 0 {
        let rest = b.skip(1);
        assert forall|i: int| 0 <= i < rest.len() implies #[trigger] rest[i] != 0x1b by {
            assert(rest[i] == b[i + 1]);
        }
        lemma_plain_bytes(rest);
    }
}

/// Printable text reads as it is, and control sequences read as nothing: whatever stands
/// between the opening of one and the letter that ends it is left out, and nothing else.
#[verifier::rlimit(40)]
pub proof fn law_control_sequences_read_as_nothing(
    front: Seq<char>,
    parameters: Seq<char>,
    letter: char,
    behind: Seq<char>,
)
    requires
        is_printable(front) && is_printable(behind) && is_printable(parameters),
        forall|i: int|
            0 <= i < parameters.len() ==> !is_letter((#[trigger] parameters[i]) as u8),
        letter as u32 <= 0x7e && is_letter(letter as u8),
    ensures
        plain_text(encode_utf8(front)) == front,
        plain_text(
            encode_utf8(front + seq!['\u{1b}', '['] + parameters + seq![letter] + behind),
        ) == front + behind,
{
    let all = front + seq!['\u{1b}', '['] + parameters + seq![letter] + behind;
    lemma_ascii_bytes(front);
    lemma_ascii_bytes(behind);
    lemma_printable_reads(front);
    lemma_printable_reads(behind);
    assert forall|i: int| 0 <= i < all.len() implies (#[trigger] all[i]) as u32 <= 0x7e by {
        let f = front.len() as int;
        let p = parameters.len() as int;
        if i < f {
            assert(all[i] == front[i]);
        } else if i == f {
            assert(all[i] == '\u{1b}');
        } else if i == f + 1 {
            assert(all[i] == '[');
        } else if i < f + 2 + p {
            assert(all[i] == parameters[i - f - 2]);
        } else if i == f + 2 + p {
            assert(all[i] == letter);
        } else {
            assert(all[i] == behind[i - f - 3 - p]);
        }
    }
    lemma_low_bytes(all);
    lemma_low_bytes(front);
    lemma_low_bytes(behind);
    lemma_low_bytes(parameters);
    let b = encode_utf8(all);
    let tail = b.skip(front.len() as int);
    let end = encode_utf8(behind);
    assert(b =~= encode_utf8(front) + tail);
    lemma_plain_front(encode_utf8(front), tail);
    let inner = tail.skip(2);
    assert(inner =~= encode_utf8(parameters) + (seq![letter as u8] + end));
    lemma_behind_parameters(encode_utf8(parameters), letter as u8, end);
    assert(tail[0] == 0x1b && tail[1] == 0x5b);
    assert(front + behind =~= plain_text(b));
}

proof fn lemma_plain_front(front: Seq<u8>, tail: Seq<u8>)
    requires
        forall|i: int| 0 <= i < front.len() ==> #[trigger] front[i] != 0x1b,
    ensures
        plain_text(front + tail) =~= plain_text(front) + plain_text(tail),
    decreases front.len(),
{
    let all = front + tail;
    if front.len() == 0 {
        assert(all =~= tail);
    } else {
        let rest = front.skip(1);
        assert forall|i: int| 0 <= i < rest.len() implies #[trigger] rest[i] != 0x1b by {
            assert(rest[i] == front[i + 1]);
        }
        assert(all.skip(1) =~= rest + tail);
        lemma_plain_front(rest, tail);
    }
}

proof fn lemma_behind_parameters(parameters: Seq<u8>, letter: u8, end: Seq<u8>)
    requires
        is_letter(letter),
        forall|i: int| 0 <= i < parameters.len() ==> !is_letter(#[trigger] parameters[i]),
    ensures
        behind_letter(parameters + (seq![letter] + end)) == end,
    decreases parameters.len(),
{
    let all = parameters + (seq![letter] + end);
    if parameters.len() == 0 {
        assert(all.skip(1) =~= end);
    } else {
        let rest = parameters.skip(1);
        assert(all[0] == parameters[0]);
        assert(all.skip(1) =~= rest + (seq![letter] + end));
        assert forall|i: int| 0 <= i < rest.len() implies !is_letter(#[trigger] rest[i]) by {
            assert(rest[i] == parameters[i + 1]);
        }
        lemma_behind_parameters(rest, letter, end);
    }
}

proof fn lemma_low_bytes(s: Seq<char>)
    requires
        forall|i: int| 0 <= i < s.len() ==> (#[trigger] s[i]) as u32 <= 0x7e,
    ensures
        encode_utf8(s) =~= Seq::new(s.len(), |i: int| s[i] as u8),
{
    assert forall|i: int| 0 <= i < s.len() implies '\0' <= #[trigger] s[i] <= '\u{7f}' by {
        let c: char = s[i];
        let n: u32 = c as u32;
        vstd::utf8::char_u32_cast(c, n);
    }
    vstd::utf8::is_ascii_chars_encode_utf8(s);
}

proof fn lemma_ascii_bytes(s: Seq<char>)
    requires
        is_printable(s),
    ensures
        encode_utf8(s) =~= Seq::new(s.len(), |i: int| s[i] as u8),
        forall|i: int| 0 <= i < s.len() ==> #[trigger] encode_utf8(s)[i] != 0x1b,
{
    lemma_low_bytes(s);
    assert forall|i: int| 0 <= i < s.len() implies #[trigger] encode_utf8(s)[i] != 0x1b by {
        let c: char = s[i];
        assert(0x20 <= c as u32 <= 0x7e);
        assert(encode_utf8(s)[i] == c as u8);
        lemma_low_char(c);
        if c as u8 == 0x1b {
            let esc: u8 = 0x1b;
            assert(esc as char == c);
            assert((esc as char) as u32 == 0x1b);
        }
    }
}

/// A low character is the character with its number's byte.
proof fn lemma_low_char(c: char)
    requires
        c as u32 <= 0x7e,
    ensures
        c as u8 as char == c,
{
    let n: u32 = c as u32;
    let d: char = c as u8 as char;
    assert(d as u32 == n);
    vstd::utf8::char_u32_cast(c, n);
    vstd::utf8::char_u32_cast(d, n);
}

proof fn lemma_printable_reads(s: Seq<char>)
    requires
        is_printable(s),
    ensures
        plain_text(encode_utf8(s)) == s,
{
    lemma_ascii_bytes(s);
    lemma_plain_bytes(encode_utf8(s));
    let r = plain_text(encode_utf8(s));
    assert forall|i: int| 0 <= i < s.len() implies r[i] == s[i] by {
        assert(s[i] as u32 <= 0x7e);
        lemma_low_char(s[i]);
    }
    assert(r =~= s);
}

// -------------------------------------------------------------------- what models.dat says

/// A section that is opened is the one that its name says, white space around it and capitals
/// apart: what was said of it stays, and a model of which nothing was said has all its
/// numbers zero. No other model changes.
pub proof fn law_a_section_opens_by_its_name(
    all: Seq<Seq<char>>,
    line: Seq<char>,
    name: Seq<char>,
    other: Seq<char>,
)
    requires
        trim(line) == seq!['['] + name + seq![']'],
    ensures
        ({
            let before = models_after(all).models;
            let after = models_after(all.push(line));
            let key = lower(trim(name));
            &&& after.section == Some(key)
            &&& after.models.dom().contains(key)
            &&& before.dom().contains(key) ==> after.models[key] == before[key]
            &&& !before.dom().contains(key) ==> after.models[key] == (ModelInfo {
                scan_type: 0,
                scan_src: 0,
                plugin: 0,
                plugin_reason: 0,
            })
            &&& other != key ==> found(after.models, other) == found(before, other)
        }),
{
    assert(all.push(line).drop_last() =~= all);
    let t = trim(line);
    assert(t.subrange(1, t.len() - 1) =~= name);
    assert(t[0] == '[' && t.last() == ']');
}

/// A field sets its own number of the section it stands in, and nothing else: `scan-type` and
/// `plugin` to a signed number, `scan-src` and `plugin-reason` to an unsigned one, and each to
/// zero where its value is no such number. A field in front of every section says nothing.
pub proof fn law_a_field_sets_its_own_number(
    all: Seq<Seq<char>>,
    line: Seq<char>,
    key: Seq<char>,
    value: Seq<char>,
    other: Seq<char>,
)
    requires
        trim(line) == key + seq!['='] + value,
        !key.contains('='),
        key.len() > 0 && key[0] != '#' && key[0] != '[',
    ensures
        ({
            let before = models_after(all);
            let after = models_after(all.push(line));
            let name = trim(key);
            let signed = match parse_signed(trim(value)) {
                Some(n) => n,
                None => 0,
            };
            let unsigned = match parse_unsigned(trim(value), u32::MAX as nat) {
                Some(n) => n as int,
                None => 0,
            };
            &&& after.section == before.section
            &&& before.section is None ==> after.models == before.models
            &&& before.section matches Some(section) ==> {
                let old_info = match found(before.models, section) {
                    Some(info) => info,
                    None => ModelInfo { scan_type: 0, scan_src: 0, plugin: 0, plugin_reason: 0 },
                };
                let info = after.models[section];
                &&& after.models.dom().contains(section)
                &&& info.scan_type == if name == "scan-type"@ {
                    signed
                } else {
                    old_info.scan_type as int
                }
                &&& info.scan_src == if name == "scan-src"@ {
                    unsigned
                } else {
                    old_info.scan_src as int
                }
                &&& info.plugin == if name == "plugin"@ {
                    signed
                } else {
                    old_info.plugin as int
                }
                &&& info.plugin_reason == if name == "plugin-reason"@ {
                    unsigned
                } else {
                    old_info.plugin_reason as int
                }
                &&& other != section ==> found(after.models, other) == found(
                    before.models,
                    other,
                )
            }
        }),
{
    assert(all.push(line).drop_last() =~= all);
    let t = trim(line);
    text::lemma_split_first(key, '=', value);
    assert(t.take(key.len() as int) =~= key);
    assert(t.skip(key.len() as int + 1) =~= value);
    assert(t[0] == key[0]);
    reveal_strlit("scan-type");
    reveal_strlit("scan-src");
    reveal_strlit("plugin");
    reveal_strlit("plugin-reason");
    assert("scan-type"@.len() == 9 && "scan-src"@.len() == 8 && "plugin"@.len() == 6
        && "plugin-reason"@.len() == 13);
}

/// A blank line, a comment and a line that is neither a section nor a field say nothing.
pub proof fn law_comments_say_nothing(all: Seq<Seq<char>>, line: Seq<char>)
    requires
        trim(line).len() == 0 || trim(line)[0] == '#' || trim(line)[0] != '[' && !trim(
            line,
        ).contains('='),
    ensures
        models_after(all.push(line)) == models_after(all),
        models_after(Seq::<Seq<char>>::empty()).models == Map::<Seq<char>, ModelInfo>::empty(),
{
    assert(all.push(line).drop_last() =~= all);
    text::lemma_index_of(trim(line), '=');
}

/// What a byte reads as: itself, as the character with its number, but for an escape, which
/// reads as nothing; and with a bracket behind that, nothing up to the next letter of ASCII
/// reads as anything, or nothing at all where none follows.
pub proof fn law_an_escape_reads_as_nothing(c: u8, b: Seq<u8>, parameters: Seq<u8>)
    requires
        forall|i: int|
            0 <= i < parameters.len() ==> !(0x41 <= (#[trigger] parameters[i]) <= 0x5a) && !(0x61
                <= parameters[i] <= 0x7a),
    ensures
        c != 0x1b ==> plain_text(seq![c] + b) == seq![c as char] + plain_text(b),
        b.len() == 0 || b[0] != 0x5b ==> plain_text(seq![0x1bu8] + b) == plain_text(b),
        plain_text(seq![0x1bu8, 0x5b] + parameters).len() == 0,
        0x41 <= c <= 0x5a || 0x61 <= c <= 0x7a ==> plain_text(
            seq![0x1bu8, 0x5b] + parameters + seq![c] + b,
        ) == plain_text(b),
{
    assert((seq![c] + b).skip(1) =~= b);
    assert((seq![0x1bu8] + b).skip(1) =~= b);
    assert((seq![0x1bu8, 0x5b] + parameters).skip(2) =~= parameters);
    let none = Seq::<u8>::empty();
    lemma_letter_behind(parameters, none);
    assert(parameters + none =~= parameters);
    assert(behind_letter(none) =~= none);
    assert(plain_text(behind_letter(parameters)).len() == 0);
    let rest = seq![c] + b;
    lemma_letter_behind(parameters, rest);
    assert((seq![0x1bu8, 0x5b] + parameters + seq![c] + b).skip(2) =~= parameters + rest);
    assert(rest.skip(1) =~= b);
}

proof fn lemma_letter_behind(parameters: Seq<u8>, rest: Seq<u8>)
    requires
        forall|i: int|
            0 <= i < parameters.len() ==> !(0x41 <= (#[trigger] parameters[i]) <= 0x5a) && !(0x61
                <= parameters[i] <= 0x7a),
    ensures
        behind_letter(parameters + rest) == behind_letter(rest),
    decreases parameters.len(),
{
    let all = parameters + rest;
    if parameters.len() == 0 {
        assert(all =~= rest);
    } else {
        let less = parameters.skip(1);
        assert(all[0] == parameters[0]);
        assert(all.skip(1) =~= less + rest);
        assert forall|i: int| 0 <= i < less.len() implies !(0x41 <= (#[trigger] less[i]) <= 0x5a)
            && !(0x61 <= less[i] <= 0x7a) by {
            assert(less[i] == parameters[i + 1]);
        }
        lemma_letter_behind(less, rest);
    }
}

} // verus!
