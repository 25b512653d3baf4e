//! Machines of indicator lights and counters, and the fewest button presses
//! that set them.
use crate::text::{line_spans, lines, parse_usize, pieces, spans_within, split, split_spans, trim, trim_span, usize_of};
use crate::Day;
use vstd::arithmetic::div_mod::lemma_fundamental_div_mod_converse;
use vstd::prelude::*;
use vstd::set_lib::set_int_range;
use vstd::string::StringSliceAdditionalSpecFns;

verus! {

/// `s` without bytes `a` or `b` at either end.
pub open spec fn strip_start(s: Seq<u8>, a: u8, b: u8) -> Seq<u8>
    decreases s.len(),
{
    if s.len() > 0 && (s[0] == a || s[0] == b) {
        strip_start(s.drop_first(), a, b)
    } else {
        s
    }
}

pub open spec fn strip_end(s: Seq<u8>, a: u8, b: u8) -> Seq<u8>
    decreases s.len(),
{
    if s.len() > 0 && (s.last() == a || s.last() == b) {
        strip_end(s.drop_last(), a, b)
    } else {
        s
    }
}

/// `s` as `str::trim_matches` leaves it for the two characters `a` and `b`.
pub open spec fn strip(s: Seq<u8>, a: u8, b: u8) -> Seq<u8> {
    strip_end(strip_start(s, a, b), a, b)
}

/// The lights that `[.##.]` describes: `.` off (0), `#` on (1).
pub open spec fn lights_of(t: Seq<u8>) -> Option<Seq<usize>> {
    if forall|i: int| 0 <= i < t.len() ==> #[trigger] t[i] == 46 || t[i] == 35 {
        Some(t.map_values(|b: u8| if b == 35 { 1usize } else { 0usize }))
    } else {
        None
    }
}

/// The numbers of a comma-separated list, where every piece is one.
pub open spec fn list_of(ps: Seq<Seq<u8>>) -> Option<Seq<usize>>
    decreases ps.len(),
{
    if ps.len() == 0 {
        Some(Seq::empty())
    } else {
        match (list_of(ps.drop_last()), usize_of(ps.last())) {
            (Some(p), Some(c)) => Some(p.push(c)),
            _ => None,
        }
    }
}

/// What the words of a line say so far: the lights wanted, the buttons (each
/// the list of counters it acts on), and the counter targets.
pub struct Reading {
    pub lights: Seq<usize>,
    pub buttons: Seq<Seq<usize>>,
    pub jolts: Seq<usize>,
}

/// The words of a line read in order: `[...]` sets the lights, `(...)` adds
/// a button, `{...}` sets the counter targets; any other word, or an empty
/// one, is refused.
pub open spec fn read_words(ws: Seq<Seq<u8>>) -> Option<Reading>
    decreases ws.len(),
{
    if ws.len() == 0 {
        Some(Reading { lights: Seq::empty(), buttons: Seq::empty(), jolts: Seq::empty() })
    } else {
        match read_words(ws.drop_last()) {
            Some(r) => {
                let w = ws.last();
                if w.len() == 0 {
                    None
                } else if w[0] == 91 {
                    match lights_of(strip(w, 91, 93)) {
                        Some(l) => Some(Reading { lights: l, ..r }),
                        None => None,
                    }
                } else if w[0] == 40 {
                    match list_of(split(strip(w, 40, 41), 44)) {
                        Some(b) => Some(Reading { buttons: r.buttons.push(b), ..r }),
                        None => None,
                    }
                } else if w[0] == 123 {
                    match list_of(split(strip(w, 123, 125), 44)) {
                        Some(j) => Some(Reading { jolts: j, ..r }),
                        None => None,
                    }
                } else {
                    None
                }
            },
            None => None,
        }
    }
}

/// The reading of a line: its words are separated by single spaces.
pub open spec fn machine_of(line: Seq<u8>) -> Option<Reading> {
    read_words(split(trim(line), 32))
}

pub open spec fn machines_of(ls: Seq<Seq<u8>>) -> Option<Seq<Reading>>
    decreases ls.len(),
{
    if ls.len() == 0 {
        Some(Seq::empty())
    } else {
        match (machines_of(ls.drop_last()), machine_of(ls.last())) {
            (Some(p), Some(c)) => Some(p.push(c)),
            _ => None,
        }
    }
}

pub open spec fn spec_parse(input: Seq<u8>) -> Option<Seq<Reading>> {
    machines_of(lines(trim(input)))
}

#[derive(Debug, Clone)]
pub struct Machine {
    pub target_indicators: Vec<usize>,
    pub indicators: Vec<usize>,
    pub button_combos: Vec<Vec<usize>>,
    pub joltages: Vec<usize>,
}

/// The buttons of a machine as sequences.
pub open spec fn buttons_view(v: Seq<Vec<usize>>) -> Seq<Seq<usize>> {
    v.map_values(|b: Vec<usize>| b@)
}

impl Machine {
    /// The machine read from `r`, with all lights off.
    pub open spec fn is_reading(&self, r: Reading) -> bool {
        &&& self.target_indicators@ == r.lights
        &&& self.indicators@ == Seq::new(r.lights.len(), |i: int| 0usize)
        &&& buttons_view(self.button_combos@) == r.buttons
        &&& self.joltages@ == r.jolts
    }
}

/// The part of `s[lo..hi]` that `strip` keeps.
fn strip_span(s: &[u8], lo: usize, hi: usize, a: u8, b: u8) -> (r: (usize, usize))
    requires
        lo <= hi <= s@.len(),
    ensures
        lo <= r.0 <= r.1 <= hi,
        s@.subrange(r.0 as int, r.1 as int) == strip(s@.subrange(lo as int, hi as int), a, b),
{
    let mut x = lo;
    while x < hi && (s[x] == a || s[x] == b)
        invariant
            lo <= x <= hi <= s@.len(),
            strip_start(s@.subrange(x as int, hi as int), a, b) == strip_start(
                s@.subrange(lo as int, hi as int),
                a,
                b,
            ),
        decreases hi - x,
    {
        assert(s@.subrange(x + 1, hi as int) =~= s@.subrange(x as int, hi as int).drop_first());
        x = x + 1;
    }
    let mut y = hi;
    while y > x && (s[y - 1] == a || s[y - 1] == b)
        invariant
            lo <= x <= y <= hi <= s@.len(),
            strip_end(s@.subrange(x as int, y as int), a, b) == strip_end(
                s@.subrange(x as int, hi as int),
                a,
                b,
            ),
        decreases y - x,
    {
        assert(s@.subrange(x as int, y - 1) =~= s@.subrange(x as int, y as int).drop_last());
        y = y - 1;
    }
    (x, y)
}

proof fn lemma_list_prefix(ps: Seq<Seq<u8>>, k: int)
    requires
        0 <= k <= ps.len(),
        list_of(ps.take(k)).is_none(),
    ensures
        list_of(ps).is_none(),
    decreases ps.len(),
{
    if k < ps.len() {
        assert(ps.drop_last().take(k) =~= ps.take(k));
        lemma_list_prefix(ps.drop_last(), k);
    } else {
        assert(ps.take(k) =~= ps);
    }
}

/// The numbers of the list in `s[lo..hi]` between the brackets `open` and
/// `close`: `(0,3,4)` gives 0, 3, 4.
pub fn parse_num_list(s: &[u8], lo: usize, hi: usize, open: u8, close: u8) -> (r: Option<Vec<usize>>)
    requires
        lo <= hi <= s@.len(),
    ensures
        match list_of(split(strip(s@.subrange(lo as int, hi as int), open, close), 44)) {
            Some(v) => r.is_some() && r.unwrap()@ == v,
            None => r.is_none(),
        },
{
    let (a, b) = strip_span(s, lo, hi, open, close);
    let ps = split_spans(s, a, b, 44);
    let ghost pp = pieces(s@, ps@);
    let mut out: Vec<usize> = Vec::new();
    let mut i: usize = 0;
    while i < ps.len()
        invariant
            i <= ps@.len(),
            pp == pieces(s@, ps@),
            lo <= hi <= s@.len(),
            pp == split(strip(s@.subrange(lo as int, hi as int), open, close), 44),
            spans_within(ps@, a as int, b as int),
            b <= s@.len(),
            list_of(pp.take(i as int)) == Some(out@),
        decreases ps@.len() - i,
    {
        assert(pp.take(i + 1).drop_last() =~= pp.take(i as int));
        let (c, d) = ps[i];
        match parse_usize(s, c, d) {
            Some(v) => {
                out.push(v);
            },
            None => {
                proof {
                    assert(list_of(pp.take(i + 1)).is_none());
                    lemma_list_prefix(pp, i + 1);
                }
                return None;
            },
        }
        i = i + 1;
    }
    assert(pp.take(i as int) =~= pp);
    Some(out)
}

/// The lights that `s[lo..hi]` describes within `[` and `]`.
pub fn parse_targets(s: &[u8], lo: usize, hi: usize) -> (r: Option<Vec<usize>>)
    requires
        lo <= hi <= s@.len(),
    ensures
        match lights_of(strip(s@.subrange(lo as int, hi as int), 91, 93)) {
            Some(v) => r.is_some() && r.unwrap()@ == v,
            None => r.is_none(),
        },
{
    let (a, b) = strip_span(s, lo, hi, 91, 93);
    let ghost t = s@.subrange(a as int, b as int);
    let mut out: Vec<usize> = Vec::new();
    let mut i = a;
    while i < b
        invariant
            a <= i <= b <= s@.len(),
            t == s@.subrange(a as int, b as int),
            lo <= hi <= s@.len(),
            t == strip(s@.subrange(lo as int, hi as int), 91, 93),
            out@ =~= t.take(i - a).map_values(|x: u8| if x == 35 { 1usize } else { 0usize }),
            forall|j: int| 0 <= j < i - a ==> #[trigger] t[j] == 46 || t[j] == 35,
        decreases b - i,
    {
        assert(t[i - a] == s@[i as int]);
        let c = s[i];
        if c == 46 {
            out.push(0);
        } else if c == 35 {
            out.push(1);
        } else {
            assert(!(t[i - a] == 46 || t[i - a] == 35));
            return None;
        }
        i = i + 1;
    }
    assert(t.take(i - a) =~= t);
    Some(out)
}

proof fn lemma_words_prefix(ws: Seq<Seq<u8>>, k: int)
    requires
        0 <= k <= ws.len(),
        read_words(ws.take(k)).is_none(),
    ensures
        read_words(ws).is_none(),
    decreases ws.len(),
{
    if k < ws.len() {
        assert(ws.drop_last().take(k) =~= ws.take(k));
        lemma_words_prefix(ws.drop_last(), k);
    } else {
        assert(ws.take(k) =~= ws);
    }
}

/// The machine that the line `s[lo..hi]` describes.
fn parse_machine(s: &[u8], lo: usize, hi: usize) -> (r: Option<Machine>)
    requires
        lo <= hi <= s@.len(),
    ensures
        match machine_of(s@.subrange(lo as int, hi as int)) {
            Some(m) => r.is_some() && r.unwrap().is_reading(m),
            None => r.is_none(),
        },
{
    let (a, b) = trim_span(s, lo, hi);
    let ws = split_spans(s, a, b, 32);
    let ghost wp = pieces(s@, ws@);
    let mut lights: Vec<usize> = Vec::new();
    let mut buttons: Vec<Vec<usize>> = Vec::new();
    let mut jolts: Vec<usize> = Vec::new();
    let mut i: usize = 0;
    assert(buttons_view(buttons@) =~= Seq::<Seq<usize>>::empty());
    while i < ws.len()
        invariant
            i <= ws@.len(),
            wp == pieces(s@, ws@),
            wp == split(trim(s@.subrange(lo as int, hi as int)), 32),
            spans_within(ws@, a as int, b as int),
            b <= s@.len(),
            read_words(wp.take(i as int)) == Some(
                Reading { lights: lights@, buttons: buttons_view(buttons@), jolts: jolts@ },
            ),
        decreases ws@.len() - i,
    {
        assert(wp.take(i + 1).drop_last() =~= wp.take(i as int));
        let (c, d) = ws[i];
        let ghost w = s@.subrange(c as int, d as int);
        assert(wp.take(i + 1).last() == w);
        if c == d {
            proof {
                assert(read_words(wp.take(i + 1)).is_none());
                lemma_words_prefix(wp, i + 1);
            }
            return None;
        }
        assert(w[0] == s@[c as int]);
        let first = s[c];
        if first == 91 {
            match parse_targets(s, c, d) {
                Some(l) => {
                    lights = l;
                },
                None => {
                    proof {
                        assert(read_words(wp.take(i + 1)).is_none());
                        lemma_words_prefix(wp, i + 1);
                    }
                    return None;
                },
            }
        } else if first == 40 {
            match parse_num_list(s, c, d, 40, 41) {
                Some(bt) => {
                    let ghost prev = buttons@;
                    buttons.push(bt);
                    assert(buttons_view(buttons@) =~= buttons_view(prev).push(bt@));
                },
                None => {
                    proof {
                        assert(read_words(wp.take(i + 1)).is_none());
                        lemma_words_prefix(wp, i + 1);
                    }
                    return None;
                },
            }
        } else if first == 123 {
            match parse_num_list(s, c, d, 123, 125) {
                Some(j) => {
                    jolts = j;
                },
                None => {
                    proof {
                        assert(read_words(wp.take(i + 1)).is_none());
                        lemma_words_prefix(wp, i + 1);
                    }
                    return None;
                },
            }
        } else {
            proof {
                assert(read_words(wp.take(i + 1)).is_none());
                lemma_words_prefix(wp, i + 1);
            }
            return None;
        }
        i = i + 1;
    }
    assert(wp.take(i as int) =~= wp);
    let n = lights.len();
    let mut indicators: Vec<usize> = Vec::new();
    let mut k: usize = 0;
    while k < n
        invariant
            k <= n,
            indicators@ =~= Seq::new(k as nat, |q: int| 0usize),
        decreases n - k,
    {
        indicators.push(0);
        k = k + 1;
    }
    Some(Machine { target_indicators: lights, indicators, button_combos: buttons, joltages: jolts })
}

proof fn lemma_machines_prefix(ls: Seq<Seq<u8>>, k: int)
    requires
        0 <= k <= ls.len(),
        machines_of(ls.take(k)).is_none(),
    ensures
        machines_of(ls).is_none(),
    decreases ls.len(),
{
    if k < ls.len() {
        assert(ls.drop_last().take(k) =~= ls.take(k));
        lemma_machines_prefix(ls.drop_last(), k);
    } else {
        assert(ls.take(k) =~= ls);
    }
}

/// The machines of a text, one per line.
pub fn parse(input: &str) -> (r: Option<Vec<Machine>>)
    ensures
        match spec_parse(input.spec_bytes()) {
            Some(v) => r.is_some() && r.unwrap()@.len() == v.len() && forall|i: int|
                0 <= i < v.len() ==> #[trigger] r.unwrap()@[i].is_reading(v[i]),
            None => r.is_none(),
        },
{
    let s = input.as_bytes();
    let (lo, hi) = trim_span(s, 0, s.len());
    assert(s@.subrange(0, s@.len() as int) =~= s@);
    let ls = line_spans(s, lo, hi);
    let ghost lp = pieces(s@, ls@);
    let mut out: Vec<Machine> = Vec::new();
    let ghost mut readings: Seq<Reading> = Seq::empty();
    let mut i: usize = 0;
    while i < ls.len()
        invariant
            i <= ls@.len(),
            lp == pieces(s@, ls@),
            lp == lines(trim(s@)),
            s@ == input.spec_bytes(),
            spans_within(ls@, lo as int, hi as int),
            hi <= s@.len(),
            machines_of(lp.take(i as int)) == Some(readings),
            out@.len() == readings.len(),
            forall|q: int| 0 <= q < readings.len() ==> #[trigger] out@[q].is_reading(readings[q]),
        decreases ls@.len() - i,
    {
        assert(lp.take(i + 1).drop_last() =~= lp.take(i as int));
        let (a, b) = ls[i];
        assert(lp.take(i + 1).last() == s@.subrange(a as int, b as int));
        match parse_machine(s, a, b) {
            Some(m) => {
                proof {
                    readings = readings.push(machine_of(s@.subrange(a as int, b as int)).unwrap());
                }
                out.push(m);
            },
            None => {
                proof {
                    assert(machines_of(lp.take(i + 1)).is_none());
                    lemma_machines_prefix(lp, i + 1);
                }
                return None;
            },
        }
        i = i + 1;
    }
    assert(lp.take(i as int) =~= lp);
    Some(out)
}

/// A button pressed: with `toggle`, each light it lists flips between 0 and
/// 1; else each counter it lists goes up by one, none where one passes its
/// cap.
pub open spec fn press(v: Seq<usize>, button: Seq<usize>, toggle: bool, caps: Seq<usize>) -> Option<Seq<usize>>
    decreases button.len(),
{
    if button.len() == 0 {
        Some(v)
    } else {
        match press(v, button.drop_last(), toggle, caps) {
            Some(w) => {
                let i = button.last() as int;
                if toggle {
                    Some(w.update(i, ((w[i] + 1) % 2) as usize))
                } else if w[i] + 1 <= caps[i] {
                    Some(w.update(i, (w[i] + 1) as usize))
                } else {
                    None
                }
            },
            None => None,
        }
    }
}

/// The states that exactly `k` presses lead to from `start`.
pub open spec fn level(start: Seq<usize>, buttons: Seq<Seq<usize>>, toggle: bool, caps: Seq<usize>, k: nat) -> Set<Seq<usize>>
    decreases k,
{
    if k == 0 {
        set![start]
    } else {
        let prev = level(start, buttons, toggle, caps, (k - 1) as nat);
        Set::new(
            |t: Seq<usize>|
                exists|s: Seq<usize>, b: int|
                    prev.contains(s) && 0 <= b < buttons.len() && #[trigger] press(
                        s,
                        buttons[b],
                        toggle,
                        caps,
                    ) == Some(t),
        )
    }
}

/// How many values each light or counter can take: 2 for lights, one more
/// than the cap for counters.
pub open spec fn radices(caps: Seq<usize>, toggle: bool) -> Seq<nat> {
    Seq::new(caps.len(), |i: int| if toggle { 2nat } else { (caps[i] + 1) as nat })
}

/// How many states there are.
pub open spec fn size(rs: Seq<nat>) -> nat
    decreases rs.len(),
{
    if rs.len() == 0 {
        1
    } else {
        rs[0] * size(rs.drop_first())
    }
}

/// Each value is below its radix.
pub open spec fn valid(v: Seq<usize>, rs: Seq<nat>) -> bool {
    v.len() == rs.len() && forall|i: int| 0 <= i < v.len() ==> #[trigger] v[i] < rs[i]
}

/// The number of a state, its values read as digits of mixed radix.
pub open spec fn enc(v: Seq<usize>, rs: Seq<nat>) -> int
    decreases v.len(),
{
    if v.len() == 0 || rs.len() == 0 {
        0
    } else {
        v[0] + rs[0] * enc(v.drop_first(), rs.drop_first())
    }
}

proof fn lemma_enc_bound(v: Seq<usize>, rs: Seq<nat>)
    requires
        valid(v, rs),
    ensures
        0 <= enc(v, rs) < size(rs),
    decreases v.len(),
{
    if v.len() > 0 {
        let t = v.drop_first();
        let rt = rs.drop_first();
        assert(valid(t, rt)) by {
            assert forall|i: int| 0 <= i < t.len() implies #[trigger] t[i] < rt[i] by {
                assert(t[i] == v[i + 1] && rt[i] == rs[i + 1]);
            }
        }
        lemma_enc_bound(t, rt);
        let e = enc(t, rt);
        let r0 = rs[0];
        let st = size(rt);
        assert(v[0] < r0);
        assert(v[0] + r0 * e < r0 * st) by (nonlinear_arith)
            requires
                0 <= e < st,
                0 <= v[0] < r0,
        ;
    }
}

proof fn lemma_enc_inj(v: Seq<usize>, u: Seq<usize>, rs: Seq<nat>)
    requires
        valid(v, rs),
        valid(u, rs),
        enc(v, rs) == enc(u, rs),
    ensures
        v == u,
    decreases v.len(),
{
    if v.len() > 0 {
        let rt = rs.drop_first();
        let (vt, ut) = (v.drop_first(), u.drop_first());
        assert(valid(vt, rt)) by {
            assert forall|i: int| 0 <= i < vt.len() implies #[trigger] vt[i] < rt[i] by {
                assert(vt[i] == v[i + 1] && rt[i] == rs[i + 1]);
            }
        }
        assert(valid(ut, rt)) by {
            assert forall|i: int| 0 <= i < ut.len() implies #[trigger] ut[i] < rt[i] by {
                assert(ut[i] == u[i + 1] && rt[i] == rs[i + 1]);
            }
        }
        lemma_enc_bound(vt, rt);
        lemma_enc_bound(ut, rt);
        assert(v[0] < rs[0] && u[0] < rs[0]);
        let (ev, eu) = (enc(vt, rt), enc(ut, rt));
        assert(rs[0] * ev == ev * rs[0] && rs[0] * eu == eu * rs[0]) by (nonlinear_arith);
        lemma_fundamental_div_mod_converse(enc(v, rs), rs[0] as int, enc(vt, rt), v[0] as int);
        lemma_fundamental_div_mod_converse(enc(u, rs), rs[0] as int, enc(ut, rt), u[0] as int);
        lemma_enc_inj(vt, ut, rt);
        assert(v =~= seq![v[0]] + vt);
        assert(u =~= seq![u[0]] + ut);
    } else {
        assert(v =~= u);
    }
}

/// Pressing keeps a state valid where every radix is at least 2 for
/// lights, and counters are capped one below their radix.
proof fn lemma_press_valid(v: Seq<usize>, button: Seq<usize>, toggle: bool, caps: Seq<usize>)
    requires
        valid(v, radices(caps, toggle)),
        forall|j: int| 0 <= j < button.len() ==> #[trigger] button[j] < v.len(),
    ensures
        press(v, button, toggle, caps) matches Some(w) ==> valid(w, radices(caps, toggle)),
    decreases button.len(),
{
    if button.len() > 0 {
        lemma_press_valid(v, button.drop_last(), toggle, caps);
        assert(button.last() == button[button.len() - 1]);
    }
}

/// `buttons` list only lights or counters that exist.
pub open spec fn buttons_ok(buttons: Seq<Seq<usize>>, n: nat) -> bool {
    forall|b: int, j: int| 0 <= b < buttons.len() && 0 <= j < buttons[b].len() ==> #[trigger] buttons[b][j] < n
}

/// The lights of `indicators` that `indexes` lists flipped.
pub fn apply_combo_toggle(indicators: &mut Vec<usize>, indexes: &Vec<usize>)
    requires
        forall|j: int| 0 <= j < indexes@.len() ==> #[trigger] indexes@[j] < old(indicators)@.len(),
        forall|i: int| 0 <= i < old(indicators)@.len() ==> #[trigger] old(indicators)@[i] < usize::MAX,
    ensures
        press(old(indicators)@, indexes@, true, old(indicators)@) == Some(final(indicators)@),
{
    let ghost v0 = indicators@;
    let mut j: usize = 0;
    while j < indexes.len()
        invariant
            j <= indexes@.len(),
            indicators@.len() == v0.len(),
            forall|q: int| 0 <= q < indexes@.len() ==> #[trigger] indexes@[q] < v0.len(),
            forall|i: int| 0 <= i < indicators@.len() ==> #[trigger] indicators@[i] < usize::MAX,
            press(v0, indexes@.take(j as int), true, v0) == Some(indicators@),
        decreases indexes@.len() - j,
    {
        assert(indexes@.take(j + 1).drop_last() =~= indexes@.take(j as int));
        let i = indexes[j];
        let x = indicators[i];
        indicators.set(i, (x + 1) % 2);
        j = j + 1;
    }
    assert(indexes@.take(j as int) =~= indexes@);
}

/// `button` pressed on `s`, as `press` describes.
fn press_exec(s: &Vec<usize>, button: &Vec<usize>, toggle: bool, caps: &Vec<usize>) -> (r: Option<Vec<usize>>)
    requires
        caps@.len() == s@.len(),
        valid(s@, radices(caps@, toggle)),
        forall|j: int| 0 <= j < button@.len() ==> #[trigger] button@[j] < s@.len(),
        !toggle ==> forall|i: int| 0 <= i < caps@.len() ==> #[trigger] caps@[i] < usize::MAX,
    ensures
        match press(s@, button@, toggle, caps@) {
            Some(w) => r.is_some() && r.unwrap()@ == w,
            None => r.is_none(),
        },
{
    let n = s.len();
    let mut t: Vec<usize> = Vec::new();
    let mut q: usize = 0;
    while q < n
        invariant
            n == s@.len(),
            q <= n,
            t@ =~= s@.take(q as int),
        decreases n - q,
    {
        t.push(s[q]);
        q = q + 1;
    }
    assert(s@.take(n as int) =~= s@);
    let mut j: usize = 0;
    while j < button.len()
        invariant
            j <= button@.len(),
            caps@.len() == s@.len(),
            forall|q: int| 0 <= q < button@.len() ==> #[trigger] button@[q] < s@.len(),
            !toggle ==> forall|i: int| 0 <= i < caps@.len() ==> #[trigger] caps@[i] < usize::MAX,
            valid(t@, radices(caps@, toggle)),
            press(s@, button@.take(j as int), toggle, caps@) == Some(t@),
        decreases button@.len() - j,
    {
        assert(button@.take(j + 1).drop_last() =~= button@.take(j as int));
        let i = button[j];
        let x = t[i];
        assert(x < radices(caps@, toggle)[i as int]);
        if toggle {
            t.set(i, (x + 1) % 2);
        } else {
            if x + 1 > caps[i] {
                proof {
                    lemma_press_none(s@, button@, toggle, caps@, j + 1);
                }
                return None;
            }
            t.set(i, x + 1);
        }
        j = j + 1;
    }
    assert(button@.take(j as int) =~= button@);
    Some(t)
}

proof fn lemma_press_none(v: Seq<usize>, button: Seq<usize>, toggle: bool, caps: Seq<usize>, k: int)
    requires
        0 <= k <= button.len(),
        press(v, button.take(k), toggle, caps).is_none(),
    ensures
        press(v, button, toggle, caps).is_none(),
    decreases button.len(),
{
    if k < button.len() {
        assert(button.drop_last().take(k) =~= button.take(k));
        lemma_press_none(v, button.drop_last(), toggle, caps, k);
    } else {
        assert(button.take(k) =~= button);
    }
}

/// `k` is the fewest presses, at least one, that lead from `start` to
/// `target`.
pub open spec fn fewest_at(start: Seq<usize>, target: Seq<usize>, buttons: Seq<Seq<usize>>, toggle: bool, caps: Seq<usize>, k: nat) -> bool {
    &&& k >= 1
    &&& level(start, buttons, toggle, caps, k).contains(target)
    &&& forall|j: nat| 1 <= j < k ==> !(#[trigger] level(start, buttons, toggle, caps, j)).contains(target)
}

/// The fewest presses (at least one) that lead from `start` to `target`;
/// none where no count of presses does.
pub open spec fn solve_spec(start: Seq<usize>, target: Seq<usize>, buttons: Seq<Seq<usize>>, toggle: bool, caps: Seq<usize>) -> Option<usize> {
    if exists|k: nat| k >= 1 && (#[trigger] level(start, buttons, toggle, caps, k)).contains(target) {
        Some((choose|k: nat| #[trigger] fewest_at(start, target, buttons, toggle, caps, k)) as usize)
    } else {
        None
    }
}

/// What the search needs of its inputs: states of one length whose values
/// are below their radix, buttons that list existing positions, and caps
/// that leave room to count one more.
pub open spec fn search_ok(start: Seq<usize>, target: Seq<usize>, buttons: Seq<Seq<usize>>, toggle: bool, caps: Seq<usize>) -> bool {
    &&& caps.len() == start.len()
    &&& valid(start, radices(caps, toggle))
    &&& valid(target, radices(caps, toggle))
    &&& buttons_ok(buttons, start.len())
    &&& (!toggle ==> forall|i: int| 0 <= i < caps.len() ==> #[trigger] caps[i] < usize::MAX)
}

/// A copy of `v`.
fn copy_state(v: &Vec<usize>) -> (r: Vec<usize>)
    ensures
        r@ == v@,
{
    let mut out: Vec<usize> = Vec::new();
    let mut i: usize = 0;
    while i < v.len()
        invariant
            i <= v@.len(),
            out@ =~= v@.take(i as int),
        decreases v@.len() - i,
    {
        out.push(v[i]);
        i = i + 1;
    }
    assert(v@.take(i as int) =~= v@);
    out
}

/// Distinct valid states are no more than there are states.
proof fn lemma_count_states(vs: Seq<Seq<usize>>, rs: Seq<nat>)
    requires
        vs.no_duplicates(),
        forall|q: int| 0 <= q < vs.len() ==> valid(#[trigger] vs[q], rs),
    ensures
        vs.len() <= size(rs),
{
    let codes = vs.map_values(|v: Seq<usize>| enc(v, rs));
    assert forall|i: int, j: int| 0 <= i < j < codes.len() implies codes[i] != codes[j] by {
        if codes[i] == codes[j] {
            lemma_enc_inj(vs[i], vs[j], rs);
        }
    }
    assert(codes.no_duplicates());
    codes.unique_seq_to_set();
    assert forall|c: int| codes.to_set().contains(c) implies set_int_range(0, size(rs) as int).contains(c) by {
        let q = choose|q: int| 0 <= q < codes.len() && codes[q] == c;
        lemma_enc_bound(vs[q], rs);
    }
    vstd::set_lib::lemma_int_range(0, size(rs) as int);
    vstd::set_lib::lemma_len_subset(codes.to_set(), set_int_range(0, size(rs) as int));
}

/// The states of a list of them.
pub open spec fn states(v: Seq<Vec<usize>>) -> Seq<Seq<usize>> {
    v.map_values(|s: Vec<usize>| s@)
}

/// Where every state that the listed ones lead to is listed and is not
/// `target`, and every state of the levels up to `k` is listed, no level from
/// 1 on holds `target`.
proof fn lemma_closed(start: Seq<usize>, target: Seq<usize>, buttons: Seq<Seq<usize>>, toggle: bool, caps: Seq<usize>, vs: Seq<Seq<usize>>, j: nat)
    requires
        vs.contains(start),
        forall|q: int, b: int|
            0 <= q < vs.len() && 0 <= b < buttons.len() && (#[trigger] press(vs[q], buttons[b], toggle, caps)) is Some
                ==> vs.contains(press(vs[q], buttons[b], toggle, caps).unwrap()) && press(vs[q], buttons[b], toggle, caps).unwrap() != target,
    ensures
        forall|t: Seq<usize>| #[trigger] level(start, buttons, toggle, caps, j).contains(t) ==> vs.contains(t),
        j >= 1 ==> !level(start, buttons, toggle, caps, j).contains(target),
    decreases j,
{
    if j > 0 {
        lemma_closed(start, target, buttons, toggle, caps, vs, (j - 1) as nat);
        assert forall|t: Seq<usize>| #[trigger] level(start, buttons, toggle, caps, j).contains(t) implies vs.contains(t) && t != target by {
            let (s, b) = choose|s: Seq<usize>, b: int|
                level(start, buttons, toggle, caps, (j - 1) as nat).contains(s) && 0 <= b < buttons.len() && #[trigger] press(s, buttons[b], toggle, caps) == Some(t);
            assert(vs.contains(s));
            let q = choose|q: int| 0 <= q < vs.len() && vs[q] == s;
            assert(press(vs[q], buttons[b], toggle, caps) is Some);
        }
    }
}

/// Whether `a` and `b` hold the same values.
fn same_state(a: &Vec<usize>, b: &Vec<usize>) -> (r: bool)
    ensures
        r == (a@ == b@),
{
    if a.len() != b.len() {
        return false;
    }
    let mut i: usize = 0;
    while i < a.len()
        invariant
            i <= a@.len() == b@.len(),
            forall|j: int| 0 <= j < i ==> a@[j] == b@[j],
        decreases a@.len() - i,
    {
        if a[i] != b[i] {
            return false;
        }
        i = i + 1;
    }
    assert(a@ =~= b@);
    true
}

/// Whether `t` is among the states of `vs`.
fn listed(vs: &Vec<Vec<usize>>, t: &Vec<usize>) -> (r: bool)
    ensures
        r == states(vs@).contains(t@),
{
    let mut i: usize = 0;
    while i < vs.len()
        invariant
            i <= vs@.len(),
            forall|j: int| 0 <= j < i ==> vs@[j]@ != t@,
        decreases vs@.len() - i,
    {
        if same_state(&vs[i], t) {
            assert(states(vs@)[i as int] == t@);
            return true;
        }
        i = i + 1;
    }
    proof {
        if states(vs@).contains(t@) {
            let j = choose|j: int| 0 <= j < states(vs@).len() && states(vs@)[j] == t@;
            assert(vs@[j]@ == t@);
        }
    }
    false
}

/// The fewest presses (at least one) that lead from `start` to `target`:
/// round after round, every button is pressed on each state first reached in
/// the round before; a state reached before is not pressed again.
pub fn fewest_presses(
    start: &Vec<usize>,
    target: &Vec<usize>,
    buttons: &Vec<Vec<usize>>,
    toggle: bool,
    caps: &Vec<usize>,
) -> (r: Option<usize>)
    requires
        search_ok(start@, target@, buttons_view(buttons@), toggle, caps@),
    ensures
        r == solve_spec(start@, target@, buttons_view(buttons@), toggle, caps@),
{
    let ghost bv = buttons_view(buttons@);
    let ghost rs = radices(caps@, toggle);
    let mut visited: Vec<Vec<usize>> = Vec::new();
    visited.push(copy_state(start));
    let mut e: usize = 0;
    let mut k: usize = 0;
    proof {
        assert(states(visited@)[0] == start@);
        assert forall|t: Seq<usize>| #[trigger] level(start@, bv, toggle, caps@, 0).contains(t) implies states(visited@).contains(t) by {
            assert(states(visited@)[0] == t);
        }
    }
    loop
        invariant
            search_ok(start@, target@, bv, toggle, caps@),
            bv == buttons_view(buttons@),
            rs == radices(caps@, toggle),
            e < visited@.len(),
            k < visited@.len(),
            states(visited@).no_duplicates(),
            states(visited@).contains(start@),
            forall|q: int| 0 <= q < visited@.len() ==> valid((#[trigger] visited@[q])@, rs),
            forall|j: nat, t: Seq<usize>|
                j <= k && #[trigger] level(start@, bv, toggle, caps@, j).contains(t) ==> states(visited@).contains(t),
            forall|q: int, b: int|
                0 <= q < e && 0 <= b < bv.len() && (#[trigger] press(visited@[q]@, bv[b], toggle, caps@)) is Some
                    ==> states(visited@).contains(press(visited@[q]@, bv[b], toggle, caps@).unwrap())
                    && press(visited@[q]@, bv[b], toggle, caps@).unwrap() != target@,
            forall|q: int| e <= q < visited@.len() ==> level(start@, bv, toggle, caps@, k as nat).contains(#[trigger] visited@[q]@),
            forall|j: nat| 1 <= j <= k ==> !(#[trigger] level(start@, bv, toggle, caps@, j)).contains(target@),
        decreases size(rs) - visited@.len(),
    {
        let end = visited.len();
        let ghost lk = level(start@, bv, toggle, caps@, k as nat);
        let ghost lk1 = level(start@, bv, toggle, caps@, (k + 1) as nat);
        let ghost old_states = states(visited@);
        let mut p = e;
        while p < end
            invariant
                search_ok(start@, target@, bv, toggle, caps@),
                bv == buttons_view(buttons@),
                rs == radices(caps@, toggle),
                lk == level(start@, bv, toggle, caps@, k as nat),
                lk1 == level(start@, bv, toggle, caps@, (k + 1) as nat),
                e <= p <= end <= visited@.len(),
                k < end,
                forall|j: nat| 1 <= j <= k ==> !(#[trigger] level(start@, bv, toggle, caps@, j)).contains(target@),
                states(visited@).take(end as int) == old_states,
                old_states.len() == end,
                states(visited@).no_duplicates(),
                forall|q: int| 0 <= q < visited@.len() ==> valid((#[trigger] visited@[q])@, rs),
                forall|q: int| e <= q < end ==> lk.contains(#[trigger] visited@[q]@),
                forall|q: int| end <= q < visited@.len() ==> lk1.contains(#[trigger] visited@[q]@),
                forall|q: int, b: int|
                    0 <= q < p && 0 <= b < bv.len() && (#[trigger] press(visited@[q]@, bv[b], toggle, caps@)) is Some
                        ==> states(visited@).contains(press(visited@[q]@, bv[b], toggle, caps@).unwrap())
                        && press(visited@[q]@, bv[b], toggle, caps@).unwrap() != target@,
            decreases end - p,
        {
            let mut b: usize = 0;
            while b < buttons.len()
                invariant
                    search_ok(start@, target@, bv, toggle, caps@),
                    bv == buttons_view(buttons@),
                    rs == radices(caps@, toggle),
                    lk == level(start@, bv, toggle, caps@, k as nat),
                    lk1 == level(start@, bv, toggle, caps@, (k + 1) as nat),
                    e <= p < end <= visited@.len(),
                    k < end,
                    forall|j: nat| 1 <= j <= k ==> !(#[trigger] level(start@, bv, toggle, caps@, j)).contains(target@),
                    b <= bv.len(),
                    states(visited@).take(end as int) == old_states,
                    old_states.len() == end,
                    states(visited@).no_duplicates(),
                    forall|q: int| 0 <= q < visited@.len() ==> valid((#[trigger] visited@[q])@, rs),
                    forall|q: int| e <= q < end ==> lk.contains(#[trigger] visited@[q]@),
                    forall|q: int| end <= q < visited@.len() ==> lk1.contains(#[trigger] visited@[q]@),
                    forall|q: int, b2: int|
                        ((0 <= q < p && 0 <= b2 < bv.len()) || (q == p && 0 <= b2 < b)) && (#[trigger] press(
                            visited@[q]@,
                            bv[b2],
                            toggle,
                            caps@,
                        )) is Some ==> states(visited@).contains(press(visited@[q]@, bv[b2], toggle, caps@).unwrap())
                            && press(visited@[q]@, bv[b2], toggle, caps@).unwrap() != target@,
                decreases bv.len() - b,
            {
                let ghost s = visited@[p as int]@;
                let ghost before = visited@;
                assert(bv[b as int] == buttons@[b as int]@);
                assert(forall|j: int| 0 <= j < bv[b as int].len() ==> #[trigger] bv[b as int][j] < s.len());
                proof {
                    lemma_press_valid(s, bv[b as int], toggle, caps@);
                }
                let pressed = press_exec(&visited[p], &buttons[b], toggle, caps);
                match pressed {
                    Some(t) => {
                        proof {
                            assert(lk.contains(s));
                            assert(lk1.contains(t@)) by {
                                assert(lk.contains(s) && 0 <= b < bv.len() && press(s, bv[b as int], toggle, caps@) == Some(t@));
                            }
                        }
                        if same_state(&t, target) {
                            proof {
                                assert(fewest_at(start@, target@, bv, toggle, caps@, (k + 1) as nat));
                                assert(solve_spec(start@, target@, bv, toggle, caps@) == Some((k + 1) as usize)) by {
                                    let c = choose|c: nat| #[trigger] fewest_at(start@, target@, bv, toggle, caps@, c);
                                    assert(fewest_at(start@, target@, bv, toggle, caps@, c));
                                    if c < k + 1 {
                                        assert(!level(start@, bv, toggle, caps@, c).contains(target@));
                                    } else if c > k + 1 {
                                        assert(!level(start@, bv, toggle, caps@, (k + 1) as nat).contains(target@));
                                    }
                                }
                            }
                            return Some(k + 1);
                        }
                        if !listed(&visited, &t) {
                            visited.push(t);
                            proof {
                                assert(states(visited@) =~= states(before).push(t@));
                                assert(states(visited@).take(end as int) =~= states(before).take(end as int));
                                assert(states(visited@)[visited@.len() - 1] == t@);
                            }
                        }
                        proof {
                            assert forall|q: int, b2: int|
                                ((0 <= q < p && 0 <= b2 < bv.len()) || (q == p && 0 <= b2 < b + 1)) && (#[trigger] press(
                                    visited@[q]@,
                                    bv[b2],
                                    toggle,
                                    caps@,
                                )) is Some implies states(visited@).contains(press(visited@[q]@, bv[b2], toggle, caps@).unwrap())
                                    && press(visited@[q]@, bv[b2], toggle, caps@).unwrap() != target@ by {
                                assert(visited@[q] == before[q]);
                                if !(q == p && b2 == b) {
                                    let u = press(visited@[q]@, bv[b2], toggle, caps@).unwrap();
                                    assert(states(before).contains(u));
                                    let i = choose|i: int| 0 <= i < states(before).len() && states(before)[i] == u;
                                    assert(states(visited@)[i] == u);
                                }
                            }
                        }
                    },
                    None => {
                        proof {
                            assert forall|q: int, b2: int|
                                ((0 <= q < p && 0 <= b2 < bv.len()) || (q == p && 0 <= b2 < b + 1)) && (#[trigger] press(
                                    visited@[q]@,
                                    bv[b2],
                                    toggle,
                                    caps@,
                                )) is Some implies states(visited@).contains(press(visited@[q]@, bv[b2], toggle, caps@).unwrap())
                                    && press(visited@[q]@, bv[b2], toggle, caps@).unwrap() != target@ by {
                            }
                        }
                    },
                }
                b = b + 1;
            }
            p = p + 1;
        }
        proof {
            assert forall|j: nat, t: Seq<usize>|
                j <= k + 1 && #[trigger] level(start@, bv, toggle, caps@, j).contains(t) implies states(visited@).contains(t) by {
                if j == k + 1 {
                    let (s, b) = choose|s: Seq<usize>, b: int|
                        lk.contains(s) && 0 <= b < bv.len() && #[trigger] press(s, bv[b], toggle, caps@) == Some(t);
                    assert(old_states.contains(s));
                    let q = choose|q: int| 0 <= q < old_states.len() && old_states[q] == s;
                    assert(states(visited@)[q] == s);
                    assert(press(visited@[q]@, bv[b], toggle, caps@) is Some);
                } else {
                    assert(old_states.contains(t));
                    let q = choose|q: int| 0 <= q < old_states.len() && old_states[q] == t;
                    assert(states(visited@)[q] == t);
                }
            }
            assert(!lk1.contains(target@)) by {
                if lk1.contains(target@) {
                    let (s, b) = choose|s: Seq<usize>, b: int|
                        lk.contains(s) && 0 <= b < bv.len() && #[trigger] press(s, bv[b], toggle, caps@) == Some(target@);
                    assert(old_states.contains(s));
                    let q = choose|q: int| 0 <= q < old_states.len() && old_states[q] == s;
                    assert(states(visited@)[q] == s);
                    assert(press(visited@[q]@, bv[b], toggle, caps@) is Some);
                }
            }
        }
        if visited.len() == end {
            proof {
                assert(states(visited@).take(end as int) =~= states(visited@));
                assert forall|j: nat| j >= 1 implies !(#[trigger] level(start@, bv, toggle, caps@, j)).contains(target@) by {
                    lemma_closed(start@, target@, bv, toggle, caps@, states(visited@), j);
                }
            }
            return None;
        }
        proof {
            assert forall|q: int| 0 <= q < states(visited@).len() implies valid(#[trigger] states(visited@)[q], rs) by {
                assert(valid(visited@[q]@, rs));
            }
            lemma_count_states(states(visited@), rs);
        }
        e = end;
        k = k + 1;
    }
}

/// The fewest presses that set the lights of `m` as wanted.
pub fn solve_machine_toggle(m: &Machine) -> (r: Option<usize>)
    requires
        search_ok(m.indicators@, m.target_indicators@, buttons_view(m.button_combos@), true, m.target_indicators@),
    ensures
        r == solve_spec(m.indicators@, m.target_indicators@, buttons_view(m.button_combos@), true, m.target_indicators@),
{
    fewest_presses(&m.indicators, &m.target_indicators, &m.button_combos, true, &m.target_indicators)
}

/// The fewest presses that bring the counters of `m` to its targets.
pub fn solve_machine_inc(m: &Machine) -> (r: Option<usize>)
    requires
        search_ok(m.indicators@, m.joltages@, buttons_view(m.button_combos@), false, m.joltages@),
    ensures
        r == solve_spec(m.indicators@, m.joltages@, buttons_view(m.button_combos@), false, m.joltages@),
{
    fewest_presses(&m.indicators, &m.joltages, &m.button_combos, false, &m.joltages)
}

/// The fewest presses for one machine read from `r`, all lights off or
/// counters at zero to begin with: the lights set as wanted (`toggle`), or
/// the counters brought to their targets; none where the machine does not
/// suit the search or no count of presses works.
pub open spec fn machine_answer(r: Reading, toggle: bool) -> Option<usize> {
    let start = Seq::new(r.lights.len(), |i: int| 0usize);
    let target = if toggle {
        r.lights
    } else {
        r.jolts
    };
    if search_ok(start, target, r.buttons, toggle, target) {
        solve_spec(start, target, r.buttons, toggle, target)
    } else {
        None
    }
}

/// The sum over machines, where each has an answer and the sum fits.
pub open spec fn total_answer(ms: Seq<Reading>, toggle: bool) -> Option<usize>
    decreases ms.len(),
{
    if ms.len() == 0 {
        Some(0)
    } else {
        match (total_answer(ms.drop_last(), toggle), machine_answer(ms.last(), toggle)) {
            (Some(a), Some(b)) => if a + b <= usize::MAX {
                Some((a + b) as usize)
            } else {
                None
            },
            _ => None,
        }
    }
}

proof fn lemma_total_prefix(ms: Seq<Reading>, toggle: bool, k: int)
    requires
        0 <= k <= ms.len(),
        total_answer(ms.take(k), toggle).is_none(),
    ensures
        total_answer(ms, toggle).is_none(),
    decreases ms.len(),
{
    if k < ms.len() {
        assert(ms.drop_last().take(k) =~= ms.take(k));
        lemma_total_prefix(ms.drop_last(), toggle, k);
    } else {
        assert(ms.take(k) =~= ms);
    }
}

/// Whether the inputs suit the search, as `search_ok` says.
fn search_ok_exec(start: &Vec<usize>, target: &Vec<usize>, buttons: &Vec<Vec<usize>>, toggle: bool) -> (r: bool)
    ensures
        r == search_ok(start@, target@, buttons_view(buttons@), toggle, target@),
{
    let n = start.len();
    if target.len() != n {
        return false;
    }
    let ghost rs = radices(target@, toggle);
    let mut i: usize = 0;
    while i < n
        invariant
            i <= n == start@.len() == target@.len(),
            rs == radices(target@, toggle),
            forall|j: int| 0 <= j < i ==> #[trigger] start@[j] < rs[j] && target@[j] < rs[j],
            !toggle ==> forall|j: int| 0 <= j < i ==> #[trigger] target@[j] < usize::MAX,
        decreases n - i,
    {
        let t = target[i];
        let ok = if toggle {
            start[i] < 2 && t < 2
        } else {
            t < usize::MAX && start[i] <= t
        };
        if !ok {
            proof {
                if !toggle && t == usize::MAX {
                    assert(!(target@[i as int] < usize::MAX));
                } else {
                    assert(!(start@[i as int] < rs[i as int] && target@[i as int] < rs[i as int]));
                    assert(!valid(start@, rs) || !valid(target@, rs));
                }
            }
            return false;
        }
        i = i + 1;
    }
    let ghost bv = buttons_view(buttons@);
    assert(rs.len() == n);
    assert forall|j: int| 0 <= j < start@.len() implies #[trigger] start@[j] < rs[j] by {
        assert(start@[j] < rs[j] && target@[j] < rs[j]);
    }
    assert forall|j: int| 0 <= j < target@.len() implies #[trigger] target@[j] < rs[j] by {
        assert(start@[j] < rs[j] && target@[j] < rs[j]);
    }
    assert(valid(start@, rs) && valid(target@, rs));
    let mut b: usize = 0;
    while b < buttons.len()
        invariant
            b <= buttons@.len(),
            n == start@.len() == target@.len(),
            rs == radices(target@, toggle),
            valid(start@, rs),
            valid(target@, rs),
            !toggle ==> forall|j: int| 0 <= j < n ==> #[trigger] target@[j] < usize::MAX,
            bv == buttons_view(buttons@),
            forall|p: int, j: int| 0 <= p < b && 0 <= j < bv[p].len() ==> #[trigger] bv[p][j] < n,
        decreases buttons@.len() - b,
    {
        let bt = &buttons[b];
        assert(bv[b as int] == bt@);
        let mut j: usize = 0;
        while j < bt.len()
            invariant
                j <= bt@.len(),
                n == start@.len(),
                bv == buttons_view(buttons@),
                bv[b as int] == bt@,
                b < bv.len(),
                forall|q: int| 0 <= q < j ==> #[trigger] bt@[q] < n,
            decreases bt@.len() - j,
        {
            if bt[j] >= n {
                assert(!buttons_ok(bv, n as nat)) by {
                    assert(bv[b as int][j as int] >= n);
                }
                return false;
            }
            j = j + 1;
        }
        b = b + 1;
    }
    true
}

/// Day 10: machines set with the fewest presses.
pub struct Day10 {

}

impl Day for Day10 {
    type Output = usize;

    /// The sum over machines of the fewest presses that set the lights.
    open spec fn spec_part1(input: &str) -> Option<usize> {
        match spec_parse(input.spec_bytes()) {
            Some(ms) => total_answer(ms, true),
            None => None,
        }
    }

    /// The sum over machines of the fewest presses that bring the counters
    /// to their targets.
    open spec fn spec_part2(input: &str) -> Option<usize> {
        match spec_parse(input.spec_bytes()) {
            Some(ms) => total_answer(ms, false),
            None => None,
        }
    }

    fn part1(input: &str) -> (r: Option<usize>) {
        solve_all(input, true)
    }

    fn part2(input: &str) -> (r: Option<usize>) {
        solve_all(input, false)
    }
}

/// The sum over the machines of a text of the fewest presses, for the
/// lights (`toggle`) or for the counters.
fn solve_all(input: &str, toggle: bool) -> (r: Option<usize>)
    ensures
        r == match spec_parse(input.spec_bytes()) {
            Some(ms) => total_answer(ms, toggle),
            None => None,
        },
{
    let ms = match parse(input) {
        Some(ms) => ms,
        None => {
            return None;
        },
    };
    let ghost rd = spec_parse(input.spec_bytes()).unwrap();
    let mut total: usize = 0;
    let mut i: usize = 0;
    while i < ms.len()
        invariant
            i <= ms@.len(),
            spec_parse(input.spec_bytes()) == Some(rd),
            ms@.len() == rd.len(),
            forall|q: int| 0 <= q < rd.len() ==> #[trigger] ms@[q].is_reading(rd[q]),
            total_answer(rd.take(i as int), toggle) == Some(total),
        decreases ms@.len() - i,
    {
        assert(rd.take(i + 1).drop_last() =~= rd.take(i as int));
        let m = &ms[i];
        assert(m.is_reading(rd[i as int]));
        assert(rd.take(i + 1).last() == rd[i as int]);
        let target = if toggle {
            &m.target_indicators
        } else {
            &m.joltages
        };
        if !search_ok_exec(&m.indicators, target, &m.button_combos, toggle) {
            proof {
                assert(total_answer(rd.take(i + 1), toggle).is_none());
                lemma_total_prefix(rd, toggle, i + 1);
            }
            return None;
        }
        let answer = fewest_presses(&m.indicators, target, &m.button_combos, toggle, target);
        let next = match answer {
            Some(a) => total.checked_add(a),
            None => None,
        };
        match next {
            Some(t) => {
                total = t;
            },
            None => {
                proof {
                    assert(total_answer(rd.take(i + 1), toggle).is_none());
                    lemma_total_prefix(rd, toggle, i + 1);
                }
                return None;
            },
        }
        i = i + 1;
    }
    assert(rd.take(i as int) =~= rd);
    Some(total)
}

} // verus!
