//! The layout of a JPEG file: its segments up to the first scan, and which layouts are steady, that
//! is, of a kind for which the decoder is known to come back, with the same samples on every
//! machine.

use vstd::prelude::*;

verus! {

/// What the segments before the first scan say of an image.
#[derive(Clone, Copy, PartialEq, Eq, Structural, Debug)]
pub struct Layout {
    /// a frame has been read
    pub framed: bool,
    /// the samples are coded in several passes
    pub gradual: bool,
    /// a segment may say how the components are to be taken
    pub adobe: bool,
    pub width: usize,
    pub height: usize,
    pub components: usize,
    /// how often the first component is sampled across and down
    pub across: usize,
    pub down: usize,
    /// no other component is sampled more often, either way
    pub led: bool,
    /// the largest divisor of a block's mean
    pub divisor: usize,
}

/// The two bytes at `p`, the higher one first.
pub open spec fn pair_at(b: Seq<u8>, p: int) -> int {
    b[p] * 256 + b[p + 1]
}

/// The sum of `n` bytes from `p` on.
pub open spec fn byte_sum(b: Seq<u8>, p: int, n: int) -> nat
    decreases n,
{
    if n <= 0 {
        0
    } else {
        byte_sum(b, p, n - 1) + b[p + n - 1] as nat
    }
}

/// The largest of `n` bytes from `p` on, and of `least`.
pub open spec fn byte_max(b: Seq<u8>, p: int, n: int, least: int) -> int
    decreases n,
{
    if n <= 0 {
        least
    } else {
        larger(byte_max(b, p, n - 1, least), b[p + n - 1] as int)
    }
}

/// The larger of the two.
pub open spec fn larger(a: int, b: int) -> int {
    if a < b {
        b
    } else {
        a
    }
}

/// The largest first entry of the quantization tables from `p` to `end`, and of `least`, where
/// they fill that space.
pub open spec fn divisor_in(b: Seq<u8>, p: int, end: int, least: int) -> Option<int>
    decreases end - p,
{
    if p == end {
        Some(least)
    } else if p < end && b[p] < 16 && p + 65 <= end {
        divisor_in(b, p + 65, end, larger(least, b[p + 1] as int))
    } else if p < end && 16 <= b[p] < 32 && p + 129 <= end {
        divisor_in(b, p + 129, end, larger(least, pair_at(b, p + 1)))
    } else {
        None
    }
}

/// The largest symbol of the code tables for means from `p` to `end`, and `least`, where the code
/// tables fill that space.
pub open spec fn bits_in(b: Seq<u8>, p: int, end: int, least: int) -> Option<int>
    decreases end - p,
{
    if p == end {
        Some(least)
    } else if p < end && b[p] < 32 && p + 17 + byte_sum(b, p + 1, 16) <= end {
        let n = byte_sum(b, p + 1, 16) as int;
        if b[p] < 16 {
            bits_in(b, p + 17 + n, end, byte_max(b, p + 17, n, least))
        } else {
            bits_in(b, p + 17 + n, end, least)
        }
    } else {
        None
    }
}

/// None of the first `n` components of the frame at `p` is sampled more often than this, across or
/// down.
pub open spec fn none_larger(b: Seq<u8>, p: int, n: int, across: int, down: int) -> bool
    decreases n,
{
    n <= 0 || (none_larger(b, p, n - 1, across, down) && b[p + 4 + 3 * n] / 16 <= across && b[p + 4
        + 3 * n] % 16 <= down)
}

/// The frame at `p`, whose segment ends at `end`.
pub open spec fn frame_in(b: Seq<u8>, gradual: bool, p: int, end: int, before: Layout) -> Option<
    Layout,
> {
    if before.framed || p + 9 > end || end != p + 6 + 3 * b[p + 5] {
        None
    } else {
        let across = (b[p + 7] / 16) as usize;
        let down = (b[p + 7] % 16) as usize;
        Some(
            Layout {
                framed: true,
                gradual,
                width: pair_at(b, p + 3) as usize,
                height: pair_at(b, p + 1) as usize,
                components: b[p + 5] as usize,
                across,
                down,
                led: none_larger(b, p, b[p + 5] as int, across as int, down as int),
                ..before
            },
        )
    }
}

/// The segment is read over by its length: nothing that it says bears on how the samples are
/// stored.
pub open spec fn is_remark(marker: u8, length: int) -> bool {
    &&& marker != 0 && marker != 0xff
    &&& marker != 0xcc && marker != 0xd9 && marker != 0xdc
    &&& marker == 0xe0 ==> length != 6
    &&& marker == 0xdd ==> length == 4
}

/// The layout after the segment with this marker that lies from `p` to `end`.
pub open spec fn segment_in(b: Seq<u8>, marker: u8, p: int, end: int, before: Layout) -> Option<
    Layout,
> {
    if marker == 0xdb {
        match divisor_in(b, p, end, before.divisor as int) {
            Some(divisor) => Some(Layout { divisor: divisor as usize, ..before }),
            None => None,
        }
    } else if 0xc0 <= marker <= 0xc2 {
        frame_in(b, marker == 0xc2, p, end, before)
    } else if is_remark(marker, end - p + 2) {
        Some(Layout { adobe: before.adobe || marker == 0xee, ..before })
    } else {
        None
    }
}

/// The layout when the first scan starts, with the segments from `p` on still to be read.
pub open spec fn layout_from(b: Seq<u8>, p: int, before: Layout) -> Option<Layout>
    decreases b.len() - p,
{
    if p < 0 || p + 5 > b.len() || b[p] != 0xff {
        None
    } else {
        let end = p + 2 + pair_at(b, p + 2);
        if end < p + 4 || end > b.len() {
            None
        } else if b[p + 1] == 0xda {
            if before.framed {
                Some(before)
            } else {
                None
            }
        } else {
            match segment_in(b, b[p + 1], p + 4, end, before) {
                Some(after) => layout_from(b, end, after),
                None => None,
            }
        }
    }
}

/// The layout of a file of which nothing has been read.
pub open spec fn unread() -> Layout {
    Layout {
        framed: false,
        gradual: false,
        adobe: false,
        width: 0,
        height: 0,
        components: 0,
        across: 1,
        down: 1,
        led: true,
        divisor: 0,
    }
}

/// How often the marker occurs among the first `n` bytes, wherever it stands. No file has more
/// scans than markers for one.
pub open spec fn marker_count(b: Seq<u8>, marker: u8, n: int) -> nat
    decreases n,
{
    if n <= 1 {
        0
    } else {
        marker_count(b, marker, n - 1) + if b[n - 2] == 0xff && b[n - 1] == marker {
            1nat
        } else {
            0nat
        }
    }
}

/// The most bits in which the code tables at `p`, if there are any, write the difference of two
/// means. Tables with symbols of more than fifteen bits are refused.
pub open spec fn bits_at(b: Seq<u8>, p: int) -> int {
    let end = p + 2 + pair_at(b, p + 2);
    if p + 4 <= b.len() && b[p] == 0xff && b[p + 1] == 0xc4 && p + 4 <= end <= b.len() {
        match bits_in(b, p + 4, end, 0) {
            Some(bits) => if bits <= 15 {
                bits
            } else {
                0
            },
            None => 0,
        }
    } else {
        0
    }
}

/// The most bits in which code tables that start among the first `n` bytes write the difference of
/// two means; eleven where no table takes more.
pub open spec fn most_bits(b: Seq<u8>, n: int) -> int
    decreases n,
{
    if n <= 0 {
        11
    } else {
        larger(most_bits(b, n - 1), bits_at(b, n - 1))
    }
}

/// The largest number of `n` bits.
pub open spec fn span(n: nat) -> nat
    decreases n,
{
    if n == 0 {
        0
    } else {
        2 * span((n - 1) as nat) + 1
    }
}

/// How many units of `size` cover `extent`.
pub open spec fn cover(extent: int, size: int) -> int {
    (extent + size - 1) / size
}

/// How many blocks the first component has. No other has more, where it leads them.
pub open spec fn block_count(l: Layout) -> int {
    cover(l.width as int, 8 * l.across) * l.across * (cover(l.height as int, 8 * l.down) * l.down)
}

/// The first component is sampled as often as any other. In several passes there are three
/// components, or one that nothing says how to take.
pub open spec fn is_led(l: Layout) -> bool {
    &&& 1 <= l.across <= 4
    &&& 1 <= l.down <= 4
    &&& l.led
    &&& l.gradual ==> l.components == 3 || (l.components == 1 && !l.adobe)
}

/// Whatever differences of means are coded over all blocks of all scans, their sum times the
/// divisor can be counted in 32 bits.
pub open spec fn counts_means(b: Seq<u8>, l: Layout) -> bool {
    l.divisor * span(most_bits(b, b.len() as int) as nat) * (block_count(l) * marker_count(
        b,
        0xda,
        b.len() as int,
    )) <= 0x7fff_f7ff
}

/// The file is a JPEG with Huffman codes whose first component leads the others. In a single pass,
/// its means can be counted.
pub open spec fn is_steady(b: Seq<u8>) -> bool {
    &&& b.len() >= 2
    &&& b[0] == 0xff
    &&& b[1] == 0xd8
    &&& layout_from(b, 2, unread()) matches Some(layout) && is_led(layout) && (layout.gradual
        || counts_means(b, layout))
}

fn pair(b: &[u8], p: usize) -> (r: usize)
    requires
        p + 1 < b@.len(),
    ensures
        r == pair_at(b@, p as int),
        r <= 0xffff,
{
    b[p] as usize * 256 + b[p + 1] as usize
}

fn sum_bytes(b: &[u8], p: usize) -> (r: usize)
    requires
        p + 16 <= b@.len(),
    ensures
        r == byte_sum(b@, p as int, 16),
        r <= 16 * 255,
{
    let size: usize = b.len();
    let mut n: usize = 0;
    let mut total: usize = 0;
    while n < 16
        invariant
            n <= 16,
            p + 16 <= size == b@.len(),
            total == byte_sum(b@, p as int, n as int),
            total <= n * 255,
        decreases 16 - n,
    {
        total = total + b[p + n] as usize;
        n = n + 1;
    }
    total
}

fn max_byte(b: &[u8], p: usize, count: usize, least: usize) -> (r: usize)
    requires
        p + count <= b@.len(),
    ensures
        r == byte_max(b@, p as int, count as int, least as int),
{
    let size: usize = b.len();
    let mut n: usize = 0;
    let mut most: usize = least;
    while n < count
        invariant
            n <= count,
            p + count <= size == b@.len(),
            most == byte_max(b@, p as int, n as int, least as int),
        decreases count - n,
    {
        let byte: usize = b[p + n] as usize;
        if most < byte {
            most = byte;
        }
        n = n + 1;
    }
    most
}

fn read_divisor(b: &[u8], start: usize, end: usize, least: usize) -> (r: Option<usize>)
    requires
        start <= end <= b@.len(),
    ensures
        match r {
            Some(divisor) => divisor_in(b@, start as int, end as int, least as int) == Some(
                divisor as int,
            ),
            None => divisor_in(b@, start as int, end as int, least as int) is None,
        },
        r matches Some(divisor) ==> divisor <= 0xffff || divisor == least,
{
    let mut p: usize = start;
    let mut most: usize = least;
    while p < end
        invariant
            p <= end <= b@.len(),
            most <= 0xffff || most == least,
            divisor_in(b@, p as int, end as int, most as int) == divisor_in(
                b@,
                start as int,
                end as int,
                least as int,
            ),
        decreases end - p,
    {
        let entry: usize;
        let size: usize;
        if b[p] < 16 && end - p >= 65 {
            entry = b[p + 1] as usize;
            size = 65;
        } else if b[p] >= 16 && b[p] < 32 && end - p >= 129 {
            entry = pair(b, p + 1);
            size = 129;
        } else {
            return None;
        }
        if most < entry {
            most = entry;
        }
        p = p + size;
    }
    Some(most)
}

fn read_bits(b: &[u8], start: usize, end: usize) -> (r: Option<usize>)
    requires
        start <= end <= b@.len(),
    ensures
        match r {
            Some(bits) => bits_in(b@, start as int, end as int, 0) == Some(bits as int),
            None => bits_in(b@, start as int, end as int, 0) is None,
        },
{
    let mut p: usize = start;
    let mut most: usize = 0;
    while p < end
        invariant
            p <= end <= b@.len(),
            bits_in(b@, p as int, end as int, most as int) == bits_in(
                b@,
                start as int,
                end as int,
                0,
            ),
        decreases end - p,
    {
        if b[p] >= 32 || end - p < 17 {
            return None;
        }
        let count: usize = sum_bytes(b, p + 1);
        if end - p - 17 < count {
            return None;
        }
        if b[p] < 16 {
            most = max_byte(b, p + 17, count, most);
        }
        p = p + 17 + count;
    }
    Some(most)
}

fn leads_all(b: &[u8], p: usize, count: usize, across: usize, down: usize) -> (r: bool)
    requires
        p + 6 + 3 * count <= b@.len(),
        count <= 0xff,
    ensures
        r == none_larger(b@, p as int, count as int, across as int, down as int),
{
    let size: usize = b.len();
    let mut n: usize = 0;
    let mut r: bool = true;
    while n < count
        invariant
            n <= count <= 0xff,
            p + 6 + 3 * count <= size == b@.len(),
            r == none_larger(b@, p as int, n as int, across as int, down as int),
        decreases count - n,
    {
        let factors: u8 = b[p + 7 + 3 * n];
        r = r && (factors / 16) as usize <= across && (factors % 16) as usize <= down;
        n = n + 1;
    }
    r
}

fn read_frame(b: &[u8], gradual: bool, p: usize, end: usize, before: Layout) -> (r: Option<Layout>)
    requires
        p <= end <= b@.len(),
    ensures
        r == frame_in(b@, gradual, p as int, end as int, before),
{
    if before.framed || end - p < 9 {
        return None;
    }
    let components: usize = b[p + 5] as usize;
    if end - p != 6 + 3 * components {
        return None;
    }
    let across: usize = (b[p + 7] / 16) as usize;
    let down: usize = (b[p + 7] % 16) as usize;
    Some(
        Layout {
            framed: true,
            gradual,
            width: pair(b, p + 3),
            height: pair(b, p + 1),
            components,
            across,
            down,
            led: leads_all(b, p, components, across, down),
            ..before
        },
    )
}

/// The numbers are as small as two bytes can hold.
spec fn is_small(l: Layout) -> bool {
    l.width <= 0xffff && l.height <= 0xffff && l.divisor <= 0xffff
}

fn read_segment(b: &[u8], marker: u8, p: usize, end: usize, before: Layout) -> (r: Option<Layout>)
    requires
        2 <= p <= end <= b@.len(),
    ensures
        r == segment_in(b@, marker, p as int, end as int, before),
        is_small(before) && r is Some ==> is_small(r->0),
{
    if marker == 0xdb {
        match read_divisor(b, p, end, before.divisor) {
            Some(divisor) => Some(Layout { divisor, ..before }),
            None => None,
        }
    } else if marker >= 0xc0 && marker <= 0xc2 {
        read_frame(b, marker == 0xc2, p, end, before)
    } else if marker == 0 || marker == 0xff || marker == 0xcc || marker == 0xd9 || marker == 0xdc {
        None
    } else if (marker == 0xe0 && end - p == 4) || (marker == 0xdd && end - p != 2) {
        None
    } else {
        Some(Layout { adobe: before.adobe || marker == 0xee, ..before })
    }
}

fn read_layout(b: &[u8]) -> (r: Option<Layout>)
    requires
        2 <= b@.len(),
    ensures
        r == layout_from(b@, 2, unread()),
        r matches Some(layout) ==> is_small(layout),
{
    let size: usize = b.len();
    let mut p: usize = 2;
    let mut layout = Layout {
        framed: false,
        gradual: false,
        adobe: false,
        width: 0,
        height: 0,
        components: 0,
        across: 1,
        down: 1,
        led: true,
        divisor: 0,
    };
    while size - p >= 5 && b[p] == 0xff
        invariant
            2 <= p <= size == b@.len(),
            is_small(layout),
            layout_from(b@, p as int, layout) == layout_from(b@, 2, unread()),
        decreases size - p,
    {
        let length: usize = pair(b, p + 2);
        if length < 2 || size - p - 2 < length {
            return None;
        }
        let end: usize = p + 2 + length;
        if b[p + 1] == 0xda {
            if layout.framed {
                return Some(layout);
            }
            return None;
        }
        match read_segment(b, b[p + 1], p + 4, end, layout) {
            Some(after) => {
                layout = after;
            },
            None => {
                return None;
            },
        }
        p = end;
    }
    None
}

fn count_markers(b: &[u8], marker: u8) -> (r: usize)
    ensures
        r == marker_count(b@, marker, b@.len() as int),
        r <= b@.len(),
{
    let size: usize = b.len();
    let mut n: usize = 1;
    let mut count: usize = 0;
    if size == 0 {
        return 0;
    }
    while n < size
        invariant
            1 <= n <= size == b@.len(),
            count == marker_count(b@, marker, n as int),
            count <= n,
        decreases size - n,
    {
        if b[n - 1] == 0xff && b[n] == marker {
            count = count + 1;
        }
        n = n + 1;
    }
    count
}

fn read_bits_at(b: &[u8], p: usize) -> (r: usize)
    requires
        p < b@.len(),
    ensures
        r == bits_at(b@, p as int),
        r <= 15,
{
    let size: usize = b.len();
    if size - p < 4 || b[p] != 0xff || b[p + 1] != 0xc4 {
        return 0;
    }
    let length: usize = pair(b, p + 2);
    if length < 2 || size - p - 2 < length {
        return 0;
    }
    match read_bits(b, p + 4, p + 2 + length) {
        Some(bits) if bits <= 15 => bits,
        _ => 0,
    }
}

fn find_most_bits(b: &[u8]) -> (r: usize)
    ensures
        r == most_bits(b@, b@.len() as int),
        r <= 15,
{
    let mut n: usize = 0;
    let mut most: usize = 11;
    while n < b.len()
        invariant
            n <= b@.len(),
            most == most_bits(b@, n as int),
            most <= 15,
        decreases b.len() - n,
    {
        let bits: usize = read_bits_at(b, n);
        if most < bits {
            most = bits;
        }
        n = n + 1;
    }
    most
}

fn count_span(bits: usize) -> (r: u64)
    requires
        bits <= 15,
    ensures
        r == span(bits as nat),
        r <= 0x7fff,
{
    proof {
        reveal_with_fuel(span, 16);
    }
    let mut n: usize = 0;
    let mut most: u64 = 0;
    while n < bits
        invariant
            n <= bits <= 15,
            most == span(n as nat),
            span(15) == 0x7fff,
            most <= 0x7fff,
        decreases bits - n,
    {
        proof {
            lemma_span_grows((n + 1) as nat, 15);
        }
        most = 2 * most + 1;
        n = n + 1;
    }
    most
}

proof fn lemma_span_grows(a: nat, b: nat)
    requires
        a <= b,
    ensures
        span(a) <= span(b),
    decreases b,
{
    if a < b {
        lemma_span_grows(a, (b - 1) as nat);
    }
}

fn led(l: &Layout) -> (r: bool)
    ensures
        r == is_led(*l),
{
    if l.across < 1 || l.across > 4 || l.down < 1 || l.down > 4 || !l.led {
        return false;
    }
    !l.gradual || l.components == 3 || (l.components == 1 && !l.adobe)
}

proof fn lemma_cover(extent: int, often: int)
    requires
        0 <= extent <= 0xffff,
        1 <= often <= 4,
    ensures
        0 <= cover(extent, 8 * often) <= 0x2000,
{
    let size = 8 * often;
    assert(0 <= (extent + size - 1) / size <= 0x2000) by (nonlinear_arith)
        requires
            0 <= extent <= 0xffff,
            8 <= size,
    ;
}

fn means_fit(b: &[u8], l: &Layout) -> (r: bool)
    requires
        is_small(*l),
        is_led(*l),
    ensures
        r == counts_means(b@, *l),
{
    let wide: u64 = (l.width as u64 + 8 * l.across as u64 - 1) / (8 * l.across as u64);
    let high: u64 = (l.height as u64 + 8 * l.down as u64 - 1) / (8 * l.down as u64);
    let most: u64 = count_span(find_most_bits(b));
    let scans: u128 = count_markers(b, 0xda) as u128;
    let divisor: u64 = l.divisor as u64;
    proof {
        lemma_cover(l.width as int, l.across as int);
        lemma_cover(l.height as int, l.down as int);
        assert(wide * l.across <= 0x8000 && high * l.down <= 0x8000) by (nonlinear_arith)
            requires
                wide <= 0x2000,
                high <= 0x2000,
                1 <= l.across <= 4,
                1 <= l.down <= 4,
        ;
    }
    let row: u64 = wide * l.across as u64;
    let column: u64 = high * l.down as u64;
    proof {
        assert(row * column <= 0x4000_0000) by (nonlinear_arith)
            requires
                row <= 0x8000,
                column <= 0x8000,
        ;
        assert(divisor * most <= 0x7fff_0000) by (nonlinear_arith)
            requires
                divisor <= 0xffff,
                most <= 0x7fff,
        ;
    }
    let blocks: u128 = (row * column) as u128;
    let factor: u128 = (divisor * most) as u128;
    proof {
        assert(blocks * scans <= 0x4000_0000 * 0xffff_ffff_ffff_ffff) by (nonlinear_arith)
            requires
                0 <= blocks <= 0x4000_0000,
                0 <= scans <= 0xffff_ffff_ffff_ffff,
        ;
        let all = blocks * scans;
        assert(factor * all <= 0x7fff_0000 * (0x4000_0000 * 0xffff_ffff_ffff_ffff))
            by (nonlinear_arith)
            requires
                0 <= all <= 0x4000_0000 * 0xffff_ffff_ffff_ffff,
                0 <= factor <= 0x7fff_0000,
        ;
    }
    factor * (blocks * scans) <= 0x7fff_f7ff
}

/// Whether a file is a steady JPEG.
pub fn steady(b: &[u8]) -> (r: bool)
    ensures
        r == is_steady(b@),
{
    if b.len() < 2 || b[0] != 0xff || b[1] != 0xd8 {
        return false;
    }
    match read_layout(b) {
        None => false,
        Some(layout) => led(&layout) && (layout.gradual || means_fit(b, &layout)),
    }
}

// ---- what the numbers are, over all files ----

/// Of two bytes the first weighs 256 times the second. The sum of bytes is that of all of them, and
/// the largest is one of them, or the least asked for, and no smaller than any.
pub proof fn lemma_bytes_are_summed_and_compared(b: Seq<u8>, p: int, n: int, least: int, i: int)
    requires
        0 <= p,
        0 <= i < n,
        p + n <= b.len(),
    ensures
        pair_at(b, p) == 0x100 * b[p] + b[p + 1],
        byte_sum(b, p, n) == b.subrange(p, p + n).fold_left(0int, |sum: int, v: u8| sum + v),
        byte_max(b, p, n, least) >= least,
        byte_max(b, p, n, least) >= b[p + i],
        byte_max(b, p, n, least) == least || exists|k: int|
            0 <= k < n && byte_max(b, p, n, least) == #[trigger] b[p + k],
    decreases n,
{
    let piece = b.subrange(p, p + n);
    assert(piece.drop_last() =~= b.subrange(p, p + n - 1));
    assert(piece.last() == b[p + n - 1]);
    if n > 1 {
        lemma_bytes_are_summed_and_compared(
            b,
            p,
            n - 1,
            least,
            if i < n - 1 {
                i
            } else {
                0
            },
        );
        if byte_max(b, p, n - 1, least) != least {
            let k = choose|k: int| 0 <= k < n - 1 && byte_max(b, p, n - 1, least) == #[trigger] b[p + k];
            assert(byte_max(b, p, n - 1, least) == b[p + k]);
        }
    } else {
        assert(byte_sum(b, p, 0) == 0);
        assert(byte_max(b, p, 0, least) == least);
        assert(piece.drop_last() =~= Seq::empty());
        assert(piece.drop_last().fold_left(0int, |sum: int, v: u8| sum + v) == 0);
    }
    assert(b[p + (n - 1)] == b[p + n - 1]);
}

/// Units that cover an extent reach to its end, and one less would not. The largest number of `n` bits
/// is one less than two to the power of `n`.
pub proof fn lemma_units_cover_the_extent(extent: int, size: int, n: nat)
    requires
        0 <= extent,
        0 < size,
    ensures
        (cover(extent, size) - 1) * size < extent <= cover(extent, size) * size,
        span(n) + 1 == vstd::arithmetic::power2::pow2(n),
    decreases n,
{
    let whole = extent + size - 1;
    let k = whole / size;
    vstd::arithmetic::div_mod::lemma_fundamental_div_mod(whole, size);
    assert((k - 1) * size < extent <= k * size) by (nonlinear_arith)
        requires
            whole == size * k + whole % size,
            0 <= whole % size < size,
            whole == extent + size - 1,
    ;
    if n > 0 {
        lemma_units_cover_the_extent(extent, size, (n - 1) as nat);
        vstd::arithmetic::power2::lemma_pow2_unfold(n);
    } else {
        vstd::arithmetic::power2::lemma2_to64();
    }
}

/// A marker is counted at every place where its byte stands behind a full one.
pub proof fn lemma_markers_are_counted(b: Seq<u8>, marker: u8, n: int)
    requires
        1 <= n <= b.len(),
    ensures
        marker_count(b, marker, n) == Seq::new(
            (n - 1) as nat,
            |i: int| b[i] == 0xff && b[i + 1] == marker,
        ).filter(|there: bool| there).len(),
    decreases n,
{
    reveal_with_fuel(Seq::filter, 1);
    let places = Seq::new((n - 1) as nat, |i: int| b[i] == 0xff && b[i + 1] == marker);
    let there = |there: bool| there;
    if n > 1 {
        lemma_markers_are_counted(b, marker, n - 1);
        let front = Seq::new((n - 2) as nat, |i: int| b[i] == 0xff && b[i + 1] == marker);
        assert(places.drop_last() =~= front);
        assert(places.last() == (b[n - 2] == 0xff && b[(n - 2) + 1] == marker));
    } else {
        assert(places =~= Seq::empty());
    }
}

/// The first component leads exactly where no other is sampled more often, across or down.
pub proof fn lemma_first_component_leads(b: Seq<u8>, p: int, n: int, across: int, down: int)
    ensures
        none_larger(b, p, n, across, down) <==> forall|c: int|
            1 <= c <= n ==> (#[trigger] b[p + 4 + 3 * c]) as int / 16 <= across && b[p + 4 + 3 * c] as int
                % 16 <= down,
    decreases n,
{
    if n > 0 {
        lemma_first_component_leads(b, p, n - 1, across, down);
        assert(b[p + 4 + 3 * n] as int / 16 == (b[p + 4 + 3 * n] / 16) as int);
        assert(b[p + 4 + 3 * n] as int % 16 == (b[p + 4 + 3 * n] % 16) as int);
    }
}

/// The bits of differences are at least eleven, and as many as any code table asks for.
pub proof fn lemma_bits_suffice_for_all_tables(b: Seq<u8>, n: int, i: int)
    requires
        0 <= i < n,
    ensures
        most_bits(b, n) >= 11,
        most_bits(b, n) >= bits_at(b, i),
        most_bits(b, n) == 11 || exists|k: int| 0 <= k < n && most_bits(b, n) == #[trigger] bits_at(b, k),
    decreases n,
{
    if n > 1 {
        lemma_bits_suffice_for_all_tables(
            b,
            n - 1,
            if i < n - 1 {
                i
            } else {
                0
            },
        );
    } else {
        assert(most_bits(b, 0) == 11);
    }
    assert(most_bits(b, n) == larger(most_bits(b, n - 1), bits_at(b, n - 1)));
}

} // verus!
