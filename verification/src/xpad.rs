//! The XPAD's vendor protocol: decoding its responses into the F13–F24
//! ("Small Deck") triggers and the device's key matrix.

use vstd::prelude::*;
use crate::text::{decimal, digit_char, hex_digit, push_char, push_decimal};

verus! {

/// HID usage of F13, the first Small Deck trigger key.
pub const FKEY_MIN: u8 = 0x68;
/// HID usage of F24, the last Small Deck trigger key.
pub const FKEY_MAX: u8 = 0x73;

pub open spec fn spec_is_fkey(hid: u8) -> bool {
    FKEY_MIN <= hid <= FKEY_MAX
}

/// The label of a HID usage: "F13".."F24" for the trigger keys, otherwise
/// "0x" followed by two upper-case hex digits.
pub open spec fn spec_fkey_label(hid: u8) -> Seq<char> {
    if spec_is_fkey(hid) {
        seq!['F'] + decimal((13 + hid - FKEY_MIN) as nat)
    } else {
        seq!['0', 'x', hex_digit(hid as int / 16), hex_digit(hid as int % 16)]
    }
}

/// Whether `hid` is one of F13..F24.
pub fn is_fkey(hid: u8) -> (b: bool)
    ensures
        b == spec_is_fkey(hid),
{
    FKEY_MIN <= hid && hid <= FKEY_MAX
}

/// Map an F-key HID usage (0x68..0x73) to its label, e.g. 0x68 -> "F13".
pub fn fkey_label(hid: u8) -> (s: String)
    ensures
        s@ == spec_fkey_label(hid),
{
    let mut s = String::new();
    if is_fkey(hid) {
        push_char(&mut s, 'F');
        push_decimal(&mut s, 13 + (hid - FKEY_MIN) as u32);
    } else {
        push_char(&mut s, '0');
        push_char(&mut s, 'x');
        let hi: u8 = hid / 16;
        let lo: u8 = hid % 16;
        push_char(&mut s, hex_char(hi));
        push_char(&mut s, hex_char(lo));
    }
    s
}

fn hex_char(d: u8) -> (c: char)
    requires
        d < 16,
    ensures
        c == hex_digit(d as int),
{
    if d < 10 {
        (48u8 + d) as char
    } else {
        (55u8 + d) as char
    }
}

/// Command byte of the layout read: `[0x32, 0x00, rows, cols, matrix[8][10] gpio]`.
pub const CMD_READ_LAYOUT: u8 = 0x32;
/// Command byte of the key-map read: `[0x33, 0x00, count, {gpio, hid, mod, type} x count]`.
pub const CMD_READ_KEYS: u8 = 0x33;
/// Width of a row of the layout matrix in the device's response.
pub const LAYOUT_MAX_COLS: usize = 10;
/// The gpio value that marks an empty matrix cell.
pub const NO_GPIO: u8 = 0xFF;

/// A key-map response starts with the command echo and holds a count byte.
pub open spec fn keys_header_ok(keys: Seq<u8>) -> bool {
    keys.len() >= 3 && keys[0] == CMD_READ_KEYS
}

/// A layout response starts with the command echo and holds rows and cols.
pub open spec fn layout_header_ok(lay: Seq<u8>) -> bool {
    lay.len() >= 4 && lay[0] == CMD_READ_LAYOUT
}

/// Record `i` of a key-map response is read: it is among the `count` records
/// the device reported and its hid byte lies inside the response.
pub open spec fn record_read(keys: Seq<u8>, i: int) -> bool {
    0 <= i < keys[2] && 4 * i + 4 < keys.len()
}

/// `hid` is an F13–F24 trigger named by some read record of the response.
pub open spec fn mapped_fkey(resp: Seq<u8>, hid: u8) -> bool {
    &&& spec_is_fkey(hid)
    &&& exists|i: int| record_read(resp, i) && #[trigger] resp[4 * i + 4] == hid
}

pub open spec fn strictly_increasing(s: Seq<u8>) -> bool {
    forall|i: int, j: int| 0 <= i < j < s.len() ==> s[i] < s[j]
}

/// No record at or after `from` (below `to`) is read.
proof fn lemma_no_record_after(keys: Seq<u8>, from: int, j: int)
    requires
        keys.len() >= 3,
        from <= j,
        from >= keys[2] || 4 * from + 4 >= keys.len(),
    ensures
        !record_read(keys, j),
{
}

/// The sorted, de-duplicated list of F13–F24 HID codes that a key-map
/// response (`0x33`) names.
pub fn read_mapped_fkeys(resp: &[u8]) -> (r: Result<Vec<u8>, String>)
    ensures
        !keys_header_ok(resp@) ==> (r matches Err(e) && e@ == "Unexpected response from XPAD."@),
        keys_header_ok(resp@) ==> (r matches Ok(v) && strictly_increasing(v@) && forall|h: u8|
            v@.contains(h) <==> mapped_fkey(resp@, h)),
        keys_header_ok(resp@) ==> (r matches Ok(v) && {
            &&& forall|a: int, b: int| 0 <= a < b < v@.len() ==> v@[a] < v@[b]
            &&& forall|i: int|
                0 <= i < resp@[2] && 4 * i + 4 < resp@.len() && 0x68 <= #[trigger] resp@[4 * i
                    + 4] <= 0x73 ==> v@.contains(resp@[4 * i + 4])
            &&& forall|x: u8|
                #[trigger] v@.contains(x) ==> 0x68 <= x <= 0x73 && exists|i: int|
                    0 <= i < resp@[2] && 4 * i + 4 < resp@.len() && #[trigger] resp@[4 * i + 4] == x
        }),
{
    if resp.len() < 3 || resp[0] != CMD_READ_KEYS {
        return Err(String::from_str("Unexpected response from XPAD."));
    }
    let count = resp[2] as usize;
    let mut seen: Vec<bool> = Vec::new();
    let mut k: usize = 0;
    while k < 256
        invariant
            k <= 256,
            seen@.len() == k,
            forall|h: int| 0 <= h < k ==> !seen@[h],
        decreases 256 - k,
    {
        seen.push(false);
        k = k + 1;
    }
    let mut i: usize = 0;
    while i < count && 4 + 4 * i < resp.len()
        invariant
            keys_header_ok(resp@),
            count == resp@[2],
            i <= count,
            seen@.len() == 256,
            forall|h: u8| #[trigger] seen@[h as int] <==> (spec_is_fkey(h) && exists|j: int|
                0 <= j < i && record_read(resp@, j) && #[trigger] resp@[4 * j + 4] == h),
        decreases count - i,
    {
        let hid = resp[4 + 4 * i];
        if is_fkey(hid) {
            seen.set(hid as usize, true);
        }
        assert forall|h: u8| #[trigger] seen@[h as int] <==> (spec_is_fkey(h) && exists|j: int|
            0 <= j < i + 1 && record_read(resp@, j) && #[trigger] resp@[4 * j + 4] == h) by {
            if spec_is_fkey(h) && h == hid {
                assert(record_read(resp@, i as int) && resp@[4 * i + 4] == h);
            }
        }
        i = i + 1;
    }
    assert forall|h: u8| #[trigger] seen@[h as int] <==> mapped_fkey(resp@, h) by {
        if mapped_fkey(resp@, h) {
            let j = choose|j: int| record_read(resp@, j) && #[trigger] resp@[4 * j + 4] == h;
            if j >= i {
                lemma_no_record_after(resp@, i as int, j);
            }
        }
    }
    let mut out: Vec<u8> = Vec::new();
    let mut h: usize = 0;
    while h < 256
        invariant
            h <= 256,
            seen@.len() == 256,
            forall|x: u8| #[trigger] seen@[x as int] <==> mapped_fkey(resp@, x),
            strictly_increasing(out@),
            forall|j: int| 0 <= j < out@.len() ==> out@[j] < h,
            forall|x: u8| x < h ==> (out@.contains(x) <==> seen@[x as int]),
            forall|x: u8| out@.contains(x) ==> x < h,
        decreases 256 - h,
    {
        let ghost prev = out@;
        if seen[h] {
            out.push(h as u8);
            assert(out@ == prev.push(h as u8));
        }
        assert forall|x: u8| x < h + 1 implies (out@.contains(x) <==> seen@[x as int]) by {
            if x < h {
                if out@.contains(x) && x != h as u8 {
                    let j = choose|j: int| 0 <= j < out@.len() && out@[j] == x;
                    assert(prev.contains(x) || j == prev.len());
                }
                if prev.contains(x) {
                    let j = choose|j: int| 0 <= j < prev.len() && prev[j] == x;
                    assert(out@[j] == x);
                }
            } else if seen@[x as int] {
                assert(out@[out@.len() - 1] == x);
            }
        }
        h = h + 1;
    }
    proof {
        law_mapped_fkeys(resp@);
    }
    Ok(out)
}


/// One cell of the device matrix.
pub struct Cell {
    /// 0-based row index.
    pub row: u8,
    /// 0-based column index.
    pub col: u8,
    /// Human label, e.g. "A1".
    pub pos: String,
    /// A key module is present at this cell.
    pub occupied: bool,
    /// "F13".."F24" if this cell is a Small Deck trigger.
    pub fkey: Option<String>,
}

/// The abstract value of a [`Cell`]: its strings as character sequences.
pub struct CellView {
    pub row: u8,
    pub col: u8,
    pub pos: Seq<char>,
    pub occupied: bool,
    pub fkey: Option<Seq<char>>,
}

impl View for Cell {
    type V = CellView;

    open spec fn view(&self) -> CellView {
        CellView {
            row: self.row,
            col: self.col,
            pos: self.pos@,
            occupied: self.occupied,
            fkey: match self.fkey {
                Some(f) => Some(f@),
                None => None,
            },
        }
    }
}

/// The device's key matrix: its dimensions and its cells in row-major order.
pub struct DeviceMatrix {
    pub rows: u8,
    pub cols: u8,
    pub cells: Vec<Cell>,
}

/// The hid that the key map assigns to `gpio`, looking at the first `n`
/// records: a later record for the same gpio overrides an earlier one.
pub open spec fn gpio_hid(keys: Seq<u8>, gpio: u8, n: nat) -> Option<u8>
    decreases n,
{
    if n == 0 {
        None
    } else {
        let i = n - 1;
        if record_read(keys, i) && keys[4 * i + 3] == gpio {
            Some(keys[4 * i + 4])
        } else {
            gpio_hid(keys, gpio, (n - 1) as nat)
        }
    }
}

/// The gpio at row `r`, column `c` of a layout response, or `NO_GPIO` when
/// the response is too short to hold it.
pub open spec fn layout_gpio(lay: Seq<u8>, r: int, c: int) -> u8 {
    let idx = 4 + r * LAYOUT_MAX_COLS + c;
    if idx < lay.len() {
        lay[idx]
    } else {
        NO_GPIO
    }
}

/// The label of the cell at row `r`, column `c`: the letter `'A' + r`
/// followed by the 1-based column number.
pub open spec fn pos_label(r: int, c: int) -> Seq<char> {
    seq![(65 + r) as char] + decimal((c + 1) as nat)
}

/// The cell at row `r`, column `c` of the matrix described by a layout
/// response and a key-map response.
pub open spec fn spec_cell(lay: Seq<u8>, keys: Seq<u8>, r: int, c: int) -> CellView {
    let gpio = layout_gpio(lay, r, c);
    let occupied = gpio != NO_GPIO;
    CellView {
        row: r as u8,
        col: c as u8,
        pos: pos_label(r, c),
        occupied,
        fkey: if occupied {
            match gpio_hid(keys, gpio, keys[2] as nat) {
                Some(h) => if spec_is_fkey(h) {
                    Some(spec_fkey_label(h))
                } else {
                    None
                },
                None => None,
            }
        } else {
            None
        },
    }
}

/// Building the matrix overflows the row letter: both responses are well
/// formed, there is at least one column, and there are more rows than the
/// letters from 'A' up to U+00FF.
pub open spec fn matrix_row_overflow(lay: Seq<u8>, keys: Seq<u8>) -> bool {
    &&& layout_header_ok(lay)
    &&& keys_header_ok(keys)
    &&& lay[3] >= 1
    &&& lay[2] >= 192
}

/// Checks the header of a layout response (`0x32`) and returns its
/// `(rows, cols)`.
pub fn layout_dims(lay: &[u8]) -> (r: Result<(u8, u8), String>)
    ensures
        layout_header_ok(lay@) ==> r == Ok::<(u8, u8), String>((lay@[2], lay@[3])),
        !layout_header_ok(lay@) ==> (r matches Err(e) && e@
            == "Unexpected layout response from XPAD."@),
{
    if lay.len() < 4 || lay[0] != CMD_READ_LAYOUT {
        return Err(String::from_str("Unexpected layout response from XPAD."));
    }
    Ok((lay[2], lay[3]))
}

/// No record at or after `i` is read, so the records after `i` change no
/// gpio's hid.
proof fn lemma_gpio_hid_stable(keys: Seq<u8>, gpio: u8, i: nat, n: nat)
    requires
        keys.len() >= 3,
        i <= n,
        i >= keys[2] || 4 * i + 4 >= keys.len(),
    ensures
        gpio_hid(keys, gpio, n) == gpio_hid(keys, gpio, i),
    decreases n,
{
    if n > i {
        lemma_no_record_after(keys, i as int, n - 1);
        lemma_gpio_hid_stable(keys, gpio, i, (n - 1) as nat);
    }
}

proof fn lemma_row_major(r1: int, c1: int, r: int, c: int, cols: int)
    by (nonlinear_arith)
    requires
        0 <= r1,
        0 <= c1 < cols,
        0 <= c <= cols,
        r1 < r || (r1 == r && c1 < c),
    ensures
        0 <= r1 * cols + c1 < r * cols + c,
{
}

/// The gpio → hid table of a key-map response (`0x33`), indexed by gpio.
fn gpio_table(keys: &[u8]) -> (t: Vec<Option<u8>>)
    requires
        keys_header_ok(keys@),
    ensures
        t@.len() == 256,
        forall|g: u8| #[trigger] t@[g as int] == gpio_hid(keys@, g, keys@[2] as nat),
{
    let count = keys[2] as usize;
    let mut t: Vec<Option<u8>> = Vec::new();
    let mut k: usize = 0;
    while k < 256
        invariant
            k <= 256,
            t@.len() == k,
            forall|g: int| 0 <= g < k ==> t@[g] == None::<u8>,
        decreases 256 - k,
    {
        t.push(None);
        k = k + 1;
    }
    let mut i: usize = 0;
    while i < count && 4 + 4 * i < keys.len()
        invariant
            keys_header_ok(keys@),
            count == keys@[2],
            i <= count,
            t@.len() == 256,
            forall|g: u8| #[trigger] t@[g as int] == gpio_hid(keys@, g, i as nat),
        decreases count - i,
    {
        let gpio = keys[3 + 4 * i];
        let hid = keys[4 + 4 * i];
        t.set(gpio as usize, Some(hid));
        assert(record_read(keys@, i as int));
        i = i + 1;
    }
    assert forall|g: u8| #[trigger] t@[g as int] == gpio_hid(keys@, g, keys@[2] as nat) by {
        lemma_gpio_hid_stable(keys@, g, i as nat, keys@[2] as nat);
    }
    t
}

/// The label of the cell at row `r`, column `c`.
fn cell_pos(r: u8, c: u8) -> (s: String)
    requires
        r < 191,
    ensures
        s@ == pos_label(r as int, c as int),
{
    let mut s = String::new();
    push_char(&mut s, (65u8 + r) as char);
    push_decimal(&mut s, c as u32 + 1);
    s
}

/// The matrix described by a layout response (`0x32`) and a key-map
/// response (`0x33`), flagging which cells are Small Deck (F13–F24) triggers.
pub fn read_matrix(lay: &[u8], keys: &[u8]) -> (r: Result<DeviceMatrix, String>)
    requires
        !matrix_row_overflow(lay@, keys@),
    ensures
        !layout_header_ok(lay@) ==> (r matches Err(e) && e@
            == "Unexpected layout response from XPAD."@),
        layout_header_ok(lay@) && !keys_header_ok(keys@) ==> (r matches Err(e) && e@
            == "Unexpected key-map response from XPAD."@),
        layout_header_ok(lay@) && keys_header_ok(keys@) ==> (r matches Ok(m) && {
            &&& m.rows == lay@[2]
            &&& m.cols == lay@[3]
            &&& m.cells@.len() == m.rows * m.cols
            &&& forall|i: int, j: int|
                0 <= i < m.rows && 0 <= j < m.cols ==> m.cells@[i * m.cols + j]@
                    == #[trigger] spec_cell(lay@, keys@, i, j)
            &&& forall|i: int, j: int|
                0 <= i < m.rows && 0 <= j < m.cols ==> {
                    let cell = #[trigger] m.cells@[i * m.cols + j];
                    &&& cell.row == i
                    &&& cell.col == j
                    &&& cell.occupied <==> (4 + 10 * i + j < lay@.len() && lay@[4 + 10 * i + j]
                        != 0xFF)
                }
        }),
{
    let (rows, cols) = match layout_dims(lay) {
        Ok(d) => d,
        Err(e) => return Err(e),
    };
    if keys.len() < 3 || keys[0] != CMD_READ_KEYS {
        return Err(String::from_str("Unexpected key-map response from XPAD."));
    }
    let table = gpio_table(keys);
    let mut cells: Vec<Cell> = Vec::new();
    let mut r: u8 = 0;
    while r < rows
        invariant
            layout_header_ok(lay@),
            keys_header_ok(keys@),
            !matrix_row_overflow(lay@, keys@),
            rows == lay@[2],
            cols == lay@[3],
            r <= rows,
            table@.len() == 256,
            forall|g: u8| #[trigger] table@[g as int] == gpio_hid(keys@, g, keys@[2] as nat),
            cells@.len() == r * cols,
            forall|i: int, j: int|
                0 <= i < r && 0 <= j < cols ==> cells@[i * cols + j]@ == #[trigger] spec_cell(
                    lay@,
                    keys@,
                    i,
                    j,
                ),
        decreases rows - r,
    {
        let mut c: u8 = 0;
        while c < cols
            invariant
                layout_header_ok(lay@),
                keys_header_ok(keys@),
                rows == lay@[2],
                cols == lay@[3],
                r < rows,
                cols >= 1 ==> rows < 192,
                c <= cols,
                table@.len() == 256,
                forall|g: u8| #[trigger] table@[g as int] == gpio_hid(keys@, g, keys@[2] as nat),
                cells@.len() == r * cols + c,
                forall|i: int, j: int|
                    0 <= i < r && 0 <= j < cols || i == r && 0 <= j < c ==> cells@[i * cols + j]@
                        == #[trigger] spec_cell(lay@, keys@, i, j),
            decreases cols - c,
        {
            let idx: usize = 4 + (r as usize) * LAYOUT_MAX_COLS + (c as usize);
            let gpio: u8 = if idx < lay.len() {
                lay[idx]
            } else {
                NO_GPIO
            };
            let occupied = gpio != NO_GPIO;
            let fkey: Option<String> = if occupied {
                match table[gpio as usize] {
                    Some(h) => if is_fkey(h) {
                        Some(fkey_label(h))
                    } else {
                        None
                    },
                    None => None,
                }
            } else {
                None
            };
            let cell = Cell { row: r, col: c, pos: cell_pos(r, c), occupied, fkey };
            assert(cell@ == spec_cell(lay@, keys@, r as int, c as int));
            let ghost prev = cells@;
            cells.push(cell);
            assert forall|i: int, j: int|
                0 <= i < r && 0 <= j < cols || i == r && 0 <= j < c + 1 implies cells@[i * cols
                + j]@ == #[trigger] spec_cell(lay@, keys@, i, j) by {
                if i < r || j < c {
                    lemma_row_major(i, j, r as int, c as int, cols as int);
                    assert(cells@[i * cols + j] == prev[i * cols + j]);
                }
            }
            c = c + 1;
        }
        proof {
            assert((r + 1) * cols == r * cols + cols) by (nonlinear_arith);
        }
        r = r + 1;
    }
    proof {
        assert forall|i: int, j: int| 0 <= i < rows && 0 <= j < cols implies {
            let cell = #[trigger] cells@[i * cols + j];
            &&& cell.row == i
            &&& cell.col == j
            &&& cell.occupied <==> (4 + 10 * i + j < lay@.len() && lay@[4 + 10 * i + j] != 0xFF)
        } by {
            law_cell_occupied(lay@, keys@, i, j);
            assert(cells@[i * cols + j]@ == spec_cell(lay@, keys@, i, j));
        }
    }
    Ok(DeviceMatrix { rows, cols, cells })
}


/// A mapped trigger key as the UI lists it: its HID usage and its label.
pub struct DeviceKey {
    pub hid: u8,
    pub label: String,
}

/// The device keys for a list of HID usages, in the same order, each with
/// its label.
pub fn device_keys(hids: &[u8]) -> (v: Vec<DeviceKey>)
    ensures
        v@.len() == hids@.len(),
        forall|i: int|
            0 <= i < v@.len() ==> #[trigger] v@[i].hid == hids@[i] && v@[i].label@
                == spec_fkey_label(hids@[i]),
{
    let mut v: Vec<DeviceKey> = Vec::new();
    let mut i: usize = 0;
    while i < hids.len()
        invariant
            i <= hids@.len(),
            v@.len() == i,
            forall|j: int|
                0 <= j < i ==> #[trigger] v@[j].hid == hids@[j] && v@[j].label@
                    == spec_fkey_label(hids@[j]),
        decreases hids@.len() - i,
    {
        let hid = hids[i];
        v.push(DeviceKey { hid, label: fkey_label(hid) });
        i = i + 1;
    }
    v
}


/// Different HID usages have different labels, and the trigger keys are
/// labelled "F13" to "F24" in order.
pub proof fn law_fkey_label_injective(a: u8, b: u8)
    ensures
        spec_fkey_label(a) == spec_fkey_label(b) ==> a == b,
        spec_is_fkey(a) ==> spec_fkey_label(a) == seq![
            'F',
            digit_char((13 + a - FKEY_MIN) / 10),
            digit_char((13 + a - FKEY_MIN) % 10),
        ],
{
    reveal_with_fuel(decimal, 2);
    if spec_fkey_label(a) == spec_fkey_label(b) {
        let la = spec_fkey_label(a);
        let lb = spec_fkey_label(b);
        if spec_is_fkey(a) && spec_is_fkey(b) {
            assert(la[1] == lb[1] && la[2] == lb[2]);
        } else if !spec_is_fkey(a) && !spec_is_fkey(b) {
            assert(la[2] == lb[2] && la[3] == lb[3]);
            assert(a as int == (a as int / 16) * 16 + a as int % 16);
            assert(b as int == (b as int / 16) * 16 + b as int % 16);
        } else {
            assert(la[0] != lb[0]);
        }
    }
}

/// Only occupied cells are flagged as triggers, and a flag is always the
/// label of an F13–F24 key.
pub proof fn law_trigger_cells(lay: Seq<u8>, keys: Seq<u8>, r: int, c: int)
    ensures
        spec_cell(lay, keys, r, c).fkey matches Some(f) ==> spec_cell(lay, keys, r, c).occupied
            && exists|h: u8| spec_is_fkey(h) && f == spec_fkey_label(h),
{
    let cell = spec_cell(lay, keys, r, c);
    if let Some(f) = cell.fkey {
        let g = layout_gpio(lay, r, c);
        let h = gpio_hid(keys, g, keys[2] as nat).unwrap();
        assert(spec_is_fkey(h) && f == spec_fkey_label(h));
    }
}


/// The triggers a key-map response names are exactly the F13–F24 hid bytes
/// (0x68..=0x73) of all the records it reports (`resp[2]` of them) that lie
/// inside the response, whatever their number.
pub proof fn law_mapped_fkeys(resp: Seq<u8>)
    ensures
        forall|i: int|
            0 <= i < resp[2] && 4 * i + 4 < resp.len() && 0x68 <= #[trigger] resp[4 * i + 4] <= 0x73
                ==> mapped_fkey(resp, resp[4 * i + 4]),
        forall|x: u8|
            #[trigger] mapped_fkey(resp, x) <==> 0x68 <= x <= 0x73 && exists|i: int|
                0 <= i < resp[2] && 4 * i + 4 < resp.len() && #[trigger] resp[4 * i + 4] == x,
{
    assert forall|i: int|
        0 <= i < resp[2] && 4 * i + 4 < resp.len() && 0x68 <= #[trigger] resp[4 * i + 4] <= 0x73
            implies mapped_fkey(resp, resp[4 * i + 4]) by {
        assert(record_read(resp, i));
    }
    assert forall|x: u8| #[trigger] mapped_fkey(resp, x) <==> 0x68 <= x <= 0x73 && exists|i: int|
        0 <= i < resp[2] && 4 * i + 4 < resp.len() && #[trigger] resp[4 * i + 4] == x by {
        if 0x68 <= x <= 0x73 && exists|i: int|
            0 <= i < resp[2] && 4 * i + 4 < resp.len() && #[trigger] resp[4 * i + 4] == x {
            let i = choose|i: int|
                0 <= i < resp[2] && 4 * i + 4 < resp.len() && #[trigger] resp[4 * i + 4] == x;
            assert(record_read(resp, i) && resp[4 * i + 4] == x);
        }
    }
}

/// The hid that `gpio_hid` reports is that of the last record read for the
/// gpio; without such a record it reports none.
proof fn lemma_gpio_hid_last(keys: Seq<u8>, g: u8, n: nat)
    ensures
        gpio_hid(keys, g, n) matches Some(h) ==> exists|i: int|
            0 <= i < n && 0 <= i < keys[2] && 4 * i + 4 < keys.len() && keys[4 * i + 3] == g
                && #[trigger] keys[4 * i + 4] == h && forall|j: int|
                i < j < n && j < keys[2] && 4 * j + 4 < keys.len() ==> #[trigger] keys[4 * j + 3] != g,
        gpio_hid(keys, g, n) is None ==> forall|i: int|
            0 <= i < n && 0 <= i < keys[2] && 4 * i + 4 < keys.len() ==> #[trigger] keys[4 * i + 3] != g,
    decreases n,
{
    if n > 0 {
        lemma_gpio_hid_last(keys, g, (n - 1) as nat);
    }
}

/// A cell is occupied exactly when the layout response holds a gpio for it
/// (byte `4 + 10 * row + col`) and that gpio is not 0xFF; a cell past the
/// end of the response is empty. Every other gpio, 0 included, is a key.
pub proof fn law_cell_occupied(lay: Seq<u8>, keys: Seq<u8>, r: int, c: int)
    requires
        0 <= r,
        0 <= c,
    ensures
        spec_cell(lay, keys, r, c).occupied <==> (4 + 10 * r + c < lay.len() && lay[4 + 10 * r
            + c] != 0xFF),
        spec_cell(lay, keys, r, c).row == r as u8,
        spec_cell(lay, keys, r, c).col == c as u8,
{
    assert(r * LAYOUT_MAX_COLS == 10 * r);
}

/// A cell is flagged with an F-key exactly when it is occupied and the last
/// record of the key map for its gpio (records `0..keys[2]` inside the
/// response) carries an F13–F24 hid; the flag is that hid's label.
pub proof fn law_cell_trigger(lay: Seq<u8>, keys: Seq<u8>, r: int, c: int)
    requires
        0 <= r,
        0 <= c,
    ensures
        ({
            let idx = 4 + 10 * r + c;
            let g: u8 = if idx < lay.len() {
                lay[idx]
            } else {
                0xFF
            };
            let last = |i: int|
                0 <= i < keys[2] && 4 * i + 4 < keys.len() && keys[4 * i + 3] == g && forall|j: int|
                    i < j < keys[2] && 4 * j + 4 < keys.len() ==> #[trigger] keys[4 * j + 3] != g;
            &&& spec_cell(lay, keys, r, c).fkey is Some <==> (g != 0xFF && exists|i: int|
                last(i) && 0x68 <= #[trigger] keys[4 * i + 4] <= 0x73)
            &&& forall|i: int|
                g != 0xFF && last(i) && 0x68 <= #[trigger] keys[4 * i + 4] <= 0x73 ==> spec_cell(
                    lay,
                    keys,
                    r,
                    c,
                ).fkey == Some(spec_fkey_label(keys[4 * i + 4]))
        }),
{
    let idx = 4 + 10 * r + c;
    let g: u8 = if idx < lay.len() {
        lay[idx]
    } else {
        0xFF
    };
    let n = keys[2] as nat;
    lemma_gpio_hid_last(keys, g, n);
    let last = |i: int|
        0 <= i < keys[2] && 4 * i + 4 < keys.len() && keys[4 * i + 3] == g && forall|j: int|
            i < j < keys[2] && 4 * j + 4 < keys.len() ==> #[trigger] keys[4 * j + 3] != g;
    assert forall|i: int| last(i) implies gpio_hid(keys, g, n) == Some(#[trigger] keys[4 * i + 4]) by {
        match gpio_hid(keys, g, n) {
            Some(h) => {
                let i2 = choose|i2: int|
                    0 <= i2 < n && 0 <= i2 < keys[2] && 4 * i2 + 4 < keys.len() && keys[4 * i2 + 3]
                        == g && #[trigger] keys[4 * i2 + 4] == h && forall|j: int|
                        i2 < j < n && j < keys[2] && 4 * j + 4 < keys.len() ==> #[trigger] keys[4 * j
                            + 3] != g;
                if i2 < i {
                    assert(keys[4 * i + 3] != g);
                } else if i < i2 {
                    assert(keys[4 * i2 + 3] != g);
                }
            },
            None => {
                assert(keys[4 * i + 3] != g);
            },
        }
    }
    if let Some(h) = gpio_hid(keys, g, n) {
        let i2 = choose|i2: int|
            0 <= i2 < n && 0 <= i2 < keys[2] && 4 * i2 + 4 < keys.len() && keys[4 * i2 + 3] == g
                && #[trigger] keys[4 * i2 + 4] == h && forall|j: int|
                i2 < j < n && j < keys[2] && 4 * j + 4 < keys.len() ==> #[trigger] keys[4 * j + 3] != g;
        assert(last(i2));
    }
}

/// F13..F24 are labelled "F" and the two digits of 13..24; every other hid
/// is labelled "0x" and its two upper-case hex digits.
pub proof fn law_fkey_label_text(hid: u8)
    ensures
        0x68 <= hid <= 0x73 ==> spec_fkey_label(hid) == seq![
            'F',
            (48 + (hid - 0x5B) / 10) as char,
            (48 + (hid - 0x5B) % 10) as char,
        ],
        !(0x68 <= hid <= 0x73) ==> spec_fkey_label(hid) == seq![
            '0',
            'x',
            (if hid / 16 < 10 { 48 + hid / 16 } else { 55 + hid / 16 }) as char,
            (if hid % 16 < 10 { 48 + hid % 16 } else { 55 + hid % 16 }) as char,
        ],
{
    reveal_with_fuel(decimal, 2);
}

} // verus!
