//! Scenes of the cloud catalogue and the LAN `ptReal` commands that apply one.

use vstd::prelude::*;
use crate::base64::{b64, b64decode, lemma_b64decode_b64, spec_b64, spec_b64decode};
use crate::packet::{
    ble_packet, lemma_ble_packet_checksum, lemma_ble_packet_keeps_payload, spec_ble_packet, xor_all,
};
use crate::parse::string_views;
use crate::text::{chars_of, concat};

verus! {

/// Payload bytes carried by the first line of a scene upload.
pub const FIRST_LINE_DATA: usize = 14;

/// Payload bytes carried by each continuation line.
pub const NEXT_LINE_DATA: usize = 17;

/// The most continuation lines a scene upload can have: the line count travels in one
/// byte as continuation lines plus one.
pub const MAX_NEXT_LINES: usize = 254;

/// A scene of the cloud catalogue. `scene_id` and `param_id` hold the JSON text of the
/// identifiers the cloud gave, `code` the scene code, `param` the base64 scene bytes.
pub struct Scene {
    pub id: String,
    pub name: String,
    pub category: String,
    pub icon: String,
    pub scene_id: String,
    pub param_id: String,
    pub code: u16,
    pub param: String,
}

/// Number of continuation lines needed after the first line for `n` payload bytes.
pub open spec fn next_lines(n: int) -> int {
    if n <= FIRST_LINE_DATA {
        0
    } else {
        (n - FIRST_LINE_DATA + NEXT_LINE_DATA - 1) / NEXT_LINE_DATA as int
    }
}

/// Line `j` (0-based) of the upload of `data`, before BLE framing. The first line is
/// `a3 00 01 <lines> 02` and up to 14 payload bytes; continuation line `j` is `a3 <j>`
/// and up to 17 payload bytes; the last line carries `ff` in place of its index.
pub open spec fn scene_line(data: Seq<u8>, j: int) -> Seq<u8> {
    let n = data.len() as int;
    let total = next_lines(n);
    if j == 0 {
        seq![0xa3u8, if total == 0 { 0xffu8 } else { 0x00u8 }, 0x01u8, (total + 1) as u8, 0x02u8]
            + data.take(if n < FIRST_LINE_DATA { n } else { FIRST_LINE_DATA as int })
    } else {
        let start = FIRST_LINE_DATA + NEXT_LINE_DATA * (j - 1);
        let end = if n < start + NEXT_LINE_DATA { n } else { start + NEXT_LINE_DATA };
        seq![0xa3u8, if j == total { 0xffu8 } else { j as u8 }] + data.subrange(start, end)
    }
}

/// The command that selects scene `code` once its bytes are in place: `33 05 04` and
/// the code, low byte first.
pub open spec fn select_command(code: u16) -> Seq<u8> {
    seq![0x33u8, 0x05u8, 0x04u8, (code % 256) as u8, (code / 256) as u8]
}

/// The base64 `ptReal` commands for a scene with payload `data` and code `code`: one
/// per upload line when there is a payload, then the select command.
pub open spec fn spec_lan_commands(data: Seq<u8>, code: u16) -> Seq<Seq<char>> {
    let lines = if data.len() == 0 { 0 } else { next_lines(data.len() as int) + 1 };
    Seq::new(lines as nat, |j: int| spec_b64(spec_ble_packet(scene_line(data, j)))).push(
        spec_b64(spec_ble_packet(select_command(code))),
    )
}

/// The payload bytes line `j` carries: after the 5 header bytes of the first line or
/// the 2 of a continuation line.
pub open spec fn line_payload(data: Seq<u8>, j: int) -> Seq<u8> {
    if j == 0 { scene_line(data, 0).skip(5) } else { scene_line(data, j).skip(2) }
}

/// The payloads of lines `0..m`, joined.
pub open spec fn payload_upto(data: Seq<u8>, m: int) -> Seq<u8>
    decreases m,
{
    if m <= 0 { Seq::empty() } else { payload_upto(data, m - 1) + line_payload(data, m - 1) }
}

/// Where the payload of line `j` ends in `data`.
spec fn line_end(n: int, j: int) -> int {
    let e = FIRST_LINE_DATA + NEXT_LINE_DATA * j;
    if e < n { e } else { n }
}

proof fn lemma_next_lines_bounds(n: int)
    requires
        n > FIRST_LINE_DATA,
    ensures
        next_lines(n) >= 1,
        FIRST_LINE_DATA + NEXT_LINE_DATA * next_lines(n) >= n,
        FIRST_LINE_DATA + NEXT_LINE_DATA * (next_lines(n) - 1) < n,
{
    let l = next_lines(n);
    assert(l == (n - 14 + 16) / 17);
    assert(l >= 1 && 14 + 17 * l >= n && 14 + 17 * (l - 1) < n) by (nonlinear_arith)
        requires
            n > 14,
            l == (n - 14 + 16) / 17,
    ;
}

proof fn lemma_payload_upto(data: Seq<u8>, m: int)
    requires
        data.len() > 0,
        1 <= m <= next_lines(data.len() as int) + 1,
    ensures
        payload_upto(data, m) == data.take(line_end(data.len() as int, m - 1)),
    decreases m,
{
    let n = data.len() as int;
    if n > FIRST_LINE_DATA {
        lemma_next_lines_bounds(n);
    }
    if m == 1 {
        assert(payload_upto(data, 0) =~= Seq::<u8>::empty());
        assert(line_payload(data, 0) =~= data.take(line_end(n, 0)));
    } else {
        lemma_payload_upto(data, m - 1);
        let j = m - 1;
        assert(n > FIRST_LINE_DATA);
        let l = next_lines(n);
        assert(j <= l);
        assert(NEXT_LINE_DATA * (j - 1) <= NEXT_LINE_DATA * (l - 1)) by (nonlinear_arith)
            requires
                1 <= j <= l,
        ;
        let start = FIRST_LINE_DATA + NEXT_LINE_DATA * (j - 1);
        assert(start < n);
        assert(line_end(n, j - 1) == start);
        assert(line_payload(data, j) =~= data.subrange(start, line_end(n, j)));
        assert(data.take(start) + data.subrange(start, line_end(n, j)) =~= data.take(line_end(n, j)));
    }
}

/// A scene upload carries the scene bytes whole and in order, and fits the framing: each
/// line holds at most 19 bytes (so [`ble_packet`] pads it and never cuts it), the
/// first line's count byte is the number of lines, and only the last line is marked
/// `ff`.
pub proof fn lemma_scene_lines(data: Seq<u8>)
    requires
        data.len() > 0,
        next_lines(data.len() as int) <= MAX_NEXT_LINES,
    ensures
        ({
            let l = next_lines(data.len() as int);
            &&& payload_upto(data, l + 1) == data
            &&& forall|j: int| 0 <= j <= l ==> (#[trigger] scene_line(data, j)).len() <= 19
            &&& scene_line(data, 0)[3] == (l + 1) as u8
            &&& scene_line(data, l)[1] == 0xffu8
            &&& forall|j: int| 0 < j < l ==> (#[trigger] scene_line(data, j))[1] == j as u8
        }),
{
    let n = data.len() as int;
    let l = next_lines(n);
    if n > FIRST_LINE_DATA {
        lemma_next_lines_bounds(n);
    }
    lemma_payload_upto(data, l + 1);
    if n > FIRST_LINE_DATA {
        assert(line_end(n, l) == n);
    } else {
        assert(l == 0);
        assert(line_end(n, 0) == n);
    }
    assert(data.take(n) =~= data);
    assert forall|j: int| 0 <= j <= l implies (#[trigger] scene_line(data, j)).len() <= 19 by {
        if j > 0 {
            assert(NEXT_LINE_DATA * (j - 1) <= NEXT_LINE_DATA * (l - 1)) by (nonlinear_arith)
                requires
                    1 <= j <= l,
            ;
        }
    }
}

/// Every `ptReal` command of a scene decodes to a 20-byte BLE line whose bytes XOR to
/// 0: the upload lines in order, then the select command.
pub proof fn lemma_lan_commands_decode(data: Seq<u8>, code: u16)
    ensures
        ({
            let cmds = spec_lan_commands(data, code);
            forall|j: int| 0 <= j < cmds.len() ==> {
                let p = spec_b64decode(vstd::utf8::encode_utf8(#[trigger] cmds[j]));
                &&& p.len() == 20
                &&& xor_all(p) == 0
                &&& p == spec_ble_packet(if j == cmds.len() - 1 { select_command(code) } else { scene_line(data, j) })
            }
        }),
{
    let cmds = spec_lan_commands(data, code);
    assert forall|j: int| 0 <= j < cmds.len() implies {
        let p = spec_b64decode(vstd::utf8::encode_utf8(#[trigger] cmds[j]));
        &&& p.len() == 20
        &&& xor_all(p) == 0
        &&& p == spec_ble_packet(if j == cmds.len() - 1 { select_command(code) } else { scene_line(data, j) })
    } by {
        let line = if j == cmds.len() - 1 { select_command(code) } else { scene_line(data, j) };
        assert(cmds[j] == spec_b64(spec_ble_packet(line)));
        lemma_b64decode_b64(spec_ble_packet(line));
        lemma_ble_packet_checksum(line);
    }
}

/// Whether a payload of `n` bytes fits a scene upload (at most 255 lines).
pub fn lan_fits(n: usize) -> (ok: bool)
    ensures
        ok == (next_lines(n as int) <= MAX_NEXT_LINES),
{
    if n <= FIRST_LINE_DATA {
        true
    } else {
        let d = n - FIRST_LINE_DATA;
        let q = d / NEXT_LINE_DATA + if d % NEXT_LINE_DATA == 0 { 0 } else { 1 };
        assert(q == (d + 16) / 17) by (nonlinear_arith)
            requires
                q == d / 17 + if d % 17 == 0 { 0int } else { 1int },
                d >= 1,
        ;
        q <= MAX_NEXT_LINES
    }
}

fn build_line(data: &[u8], total: usize, j: usize) -> (line: Vec<u8>)
    requires
        total == next_lines(data@.len() as int),
        total <= MAX_NEXT_LINES,
        j <= total,
    ensures
        line@ == scene_line(data@, j as int),
{
    let n = data.len();
    let mut line: Vec<u8> = Vec::new();
    let start: usize;
    let end: usize;
    if j == 0 {
        line.push(0xa3);
        line.push(if total == 0 { 0xff } else { 0x00 });
        line.push(0x01);
        line.push((total + 1) as u8);
        line.push(0x02);
        start = 0;
        end = if n < FIRST_LINE_DATA { n } else { FIRST_LINE_DATA };
    } else {
        line.push(0xa3);
        line.push(if j == total { 0xff } else { j as u8 });
        assert(data@.len() > FIRST_LINE_DATA);
        assert(j - 1 < (data@.len() - FIRST_LINE_DATA + NEXT_LINE_DATA - 1) / NEXT_LINE_DATA as int);
        assert(NEXT_LINE_DATA * (j - 1) < data@.len() - FIRST_LINE_DATA) by (nonlinear_arith)
            requires
                0 <= j - 1 < (data@.len() - FIRST_LINE_DATA + NEXT_LINE_DATA - 1) / NEXT_LINE_DATA as int,
                data@.len() > FIRST_LINE_DATA,
        ;
        start = FIRST_LINE_DATA + NEXT_LINE_DATA * (j - 1);
        end = if n - start < NEXT_LINE_DATA { n } else { start + NEXT_LINE_DATA };
    }
    let ghost head = line@;
    let mut i = start;
    while i < end
        invariant
            start <= i <= end <= n,
            n == data@.len(),
            line@ =~= head + data@.subrange(start as int, i as int),
        decreases end - i,
    {
        line.push(data[i]);
        i = i + 1;
    }
    proof {
        if j == 0 {
            assert(data@.subrange(0, end as int) =~= data@.take(end as int));
        }
    }
    line
}

/// The base64 `ptReal` commands that apply a scene over the LAN: the payload `data`
/// split into 19-byte lines (see [`scene_line`]), each framed by [`ble_packet`], then
/// the command that selects `code`. With no payload (a built-in scene) only the select
/// command is sent.
pub fn lan_commands_for(data: &[u8], code: u16) -> (out: Vec<String>)
    requires
        next_lines(data@.len() as int) <= MAX_NEXT_LINES,
    ensures
        string_views(out@) == spec_lan_commands(data@, code),
{
    let n = data.len();
    let total: usize = if n <= FIRST_LINE_DATA { 0 } else {
        (n - FIRST_LINE_DATA + NEXT_LINE_DATA - 1) / NEXT_LINE_DATA
    };
    let lines: usize = if n == 0 { 0 } else { total + 1 };
    let mut out: Vec<String> = Vec::new();
    let mut j: usize = 0;
    while j < lines
        invariant
            j <= lines,
            total == next_lines(n as int),
            total <= MAX_NEXT_LINES,
            n == data@.len(),
            lines == (if n == 0 { 0 } else { total + 1 }),
            out@.len() == j,
            forall|k: int| 0 <= k < j ==> (#[trigger] out@[k])@ == spec_b64(spec_ble_packet(scene_line(data@, k))),
        decreases lines - j,
    {
        let line = build_line(data, total, j);
        let pkt = ble_packet(line.as_slice());
        out.push(b64(pkt.as_slice()));
        j = j + 1;
    }
    let sel: [u8; 5] = [0x33, 0x05, 0x04, (code % 256) as u8, (code / 256) as u8];
    assert(sel@ =~= select_command(code));
    let pkt = ble_packet(&sel);
    out.push(b64(pkt.as_slice()));
    assert(string_views(out@) =~= spec_lan_commands(data@, code));
    out
}

impl Scene {
    /// The LAN `ptReal` commands that apply this scene: [`lan_commands_for`] on the
    /// base64-decoded scene parameter and the scene code.
    pub fn lan_commands(&self) -> (out: Vec<String>)
        requires
            next_lines(spec_b64decode(vstd::utf8::encode_utf8(self.param@)).len() as int)
                <= MAX_NEXT_LINES,
        ensures
            string_views(out@) == spec_lan_commands(
                spec_b64decode(vstd::utf8::encode_utf8(self.param@)),
                self.code,
            ),
    {
        let bytes = b64decode(self.param.as_str());
        lan_commands_for(bytes.as_slice(), self.code)
    }
}

/// A light effect of a catalogue scene, as read from the cloud reply: its name
/// (`scenceName`, empty when missing), the JSON text of its id (`scenceParamId`), its
/// code (`sceneCode` when it is an unsigned integer) and its base64 bytes
/// (`scenceParam`, empty when missing).
pub struct CatalogEffect {
    pub name: String,
    pub param_id: String,
    pub code: Option<u64>,
    pub param: String,
}

/// A catalogue scene: its name, first icon URL, the JSON text of its id, its effects.
pub struct CatalogScene {
    pub name: String,
    pub icon: String,
    pub scene_id: String,
    pub effects: Vec<CatalogEffect>,
}

/// A catalogue category: its name and scenes.
pub struct CatalogCategory {
    pub name: String,
    pub scenes: Vec<CatalogScene>,
}

/// What a [`Scene`] holds, as mathematical values.
pub struct SceneView {
    pub id: Seq<char>,
    pub name: Seq<char>,
    pub category: Seq<char>,
    pub icon: Seq<char>,
    pub scene_id: Seq<char>,
    pub param_id: Seq<char>,
    pub code: u16,
    pub param: Seq<char>,
}

/// The view of a scene.
pub open spec fn scene_view(s: Scene) -> SceneView {
    SceneView {
        id: s.id@,
        name: s.name@,
        category: s.category@,
        icon: s.icon@,
        scene_id: s.scene_id@,
        param_id: s.param_id@,
        code: s.code,
        param: s.param@,
    }
}

/// The name of a scene entry: the scene's name alone when the effect has no name or is
/// the scene's only effect, else both joined by a space.
pub open spec fn spec_scene_name(scene: Seq<char>, effect: Seq<char>, n_effects: int) -> Seq<char> {
    if effect.len() == 0 || n_effects == 1 {
        scene
    } else {
        scene + " "@ + effect
    }
}

/// The scene entry for effect `e` of scene `sc` in category `cat`; the code keeps its
/// low 16 bits and is 0 when missing.
pub open spec fn entry(cat: Seq<char>, sc: CatalogScene, e: CatalogEffect) -> SceneView {
    SceneView {
        id: e.param_id@,
        name: spec_scene_name(sc.name@, e.name@, sc.effects@.len() as int),
        category: cat,
        icon: sc.icon@,
        scene_id: sc.scene_id@,
        param_id: e.param_id@,
        code: match e.code { Some(c) => (c % 65536) as u16, None => 0u16 },
        param: e.param@,
    }
}

/// The entries of the first `k` effects of a scene.
pub open spec fn effect_entries(cat: Seq<char>, sc: CatalogScene, k: int) -> Seq<SceneView> {
    Seq::new(k as nat, |i: int| entry(cat, sc, sc.effects@[i]))
}

/// The entries of a list of scenes of one category, in order.
pub open spec fn scene_entries(cat: Seq<char>, scs: Seq<CatalogScene>) -> Seq<SceneView>
    decreases scs.len(),
{
    if scs.len() == 0 {
        Seq::empty()
    } else {
        scene_entries(cat, scs.drop_last()) + effect_entries(cat, scs.last(), scs.last().effects@.len() as int)
    }
}

/// The entries of a catalogue: one per effect of each scene of each category, in order.
pub open spec fn catalog_entries(cats: Seq<CatalogCategory>) -> Seq<SceneView>
    decreases cats.len(),
{
    if cats.len() == 0 {
        Seq::empty()
    } else {
        catalog_entries(cats.drop_last()) + scene_entries(cats.last().name@, cats.last().scenes@)
    }
}

/// The name of a scene entry (see [`spec_scene_name`]).
pub fn scene_name(scene: &str, effect: &str, n_effects: usize) -> (r: String)
    ensures
        r@ == spec_scene_name(scene@, effect@, n_effects as int),
{
    if effect.as_bytes().len() == 0 || n_effects == 1 {
        scene.to_owned()
    } else {
        let a = concat(scene, " ");
        concat(a.as_str(), effect)
    }
}

/// The scenes of a catalogue, one per light effect (see [`catalog_entries`]).
pub fn scenes_from_catalog(cats: &Vec<CatalogCategory>) -> (out: Vec<Scene>)
    ensures
        out@.map_values(|s: Scene| scene_view(s)) == catalog_entries(cats@),
{
    let mut out: Vec<Scene> = Vec::new();
    let mut i: usize = 0;
    while i < cats.len()
        invariant
            i <= cats@.len(),
            out@.map_values(|s: Scene| scene_view(s)) == catalog_entries(cats@.take(i as int)),
        decreases cats@.len() - i,
    {
        let cat = &cats[i];
        let ghost base = catalog_entries(cats@.take(i as int));
        let mut j: usize = 0;
        while j < cat.scenes.len()
            invariant
                j <= cat.scenes@.len(),
                out@.map_values(|s: Scene| scene_view(s)) == base + scene_entries(cat.name@, cat.scenes@.take(j as int)),
            decreases cat.scenes@.len() - j,
        {
            let sc = &cat.scenes[j];
            let ghost base2 = base + scene_entries(cat.name@, cat.scenes@.take(j as int));
            let n = sc.effects.len();
            let mut k: usize = 0;
            while k < n
                invariant
                    k <= n,
                    n == sc.effects@.len(),
                    out@.map_values(|s: Scene| scene_view(s)) == base2 + effect_entries(cat.name@, *sc, k as int),
                decreases n - k,
            {
                let e = &sc.effects[k];
                let code: u16 = match e.code {
                    Some(c) => (c % 65536) as u16,
                    None => 0,
                };
                let ghost before = out@.map_values(|s: Scene| scene_view(s));
                out.push(Scene {
                    id: e.param_id.clone(),
                    name: scene_name(sc.name.as_str(), e.name.as_str(), n),
                    category: cat.name.clone(),
                    icon: sc.icon.clone(),
                    scene_id: sc.scene_id.clone(),
                    param_id: e.param_id.clone(),
                    code,
                    param: e.param.clone(),
                });
                assert(out@.map_values(|s: Scene| scene_view(s)) =~= before.push(entry(cat.name@, *sc, sc.effects@[k as int])));
                assert(effect_entries(cat.name@, *sc, k + 1) =~= effect_entries(cat.name@, *sc, k as int).push(entry(cat.name@, *sc, sc.effects@[k as int])));
                assert(out@.map_values(|s: Scene| scene_view(s)) =~= base2 + effect_entries(cat.name@, *sc, k + 1));
                k = k + 1;
            }
            assert(cat.scenes@.take(j + 1).drop_last() =~= cat.scenes@.take(j as int));
            assert(base2 + effect_entries(cat.name@, *sc, n as int) =~= base + scene_entries(cat.name@, cat.scenes@.take(j + 1)));
            j = j + 1;
        }
        assert(cat.scenes@.take(cat.scenes@.len() as int) =~= cat.scenes@);
        assert(cats@.take(i + 1).drop_last() =~= cats@.take(i as int));
        i = i + 1;
    }
    assert(cats@.take(cats@.len() as int) =~= cats@);
    out
}

/// `c` with an ASCII capital replaced by its small letter.
pub open spec fn ascii_lower(c: char) -> char {
    if 'A' <= c <= 'Z' { ((c as u32) + 32) as char } else { c }
}

/// Equality up to ASCII case, as `str::eq_ignore_ascii_case` tests it (on bytes, which
/// for UTF-8 texts is the same as on characters).
pub open spec fn spec_eq_ignore_ascii_case(a: Seq<char>, b: Seq<char>) -> bool {
    a.len() == b.len() && forall|i: int| 0 <= i < a.len() ==> ascii_lower(#[trigger] a[i]) == ascii_lower(b[i])
}

fn ascii_lower_exec(c: char) -> (r: char)
    ensures
        r == ascii_lower(c),
{
    if 'A' <= c && c <= 'Z' {
        ((c as u8) + 32) as char
    } else {
        c
    }
}

/// Whether two texts are equal up to ASCII case.
pub fn eq_ignore_ascii_case(a: &str, b: &str) -> (r: bool)
    ensures
        r == spec_eq_ignore_ascii_case(a@, b@),
{
    let ac = chars_of(a);
    let bc = chars_of(b);
    if ac.len() != bc.len() {
        return false;
    }
    let mut i: usize = 0;
    while i < ac.len()
        invariant
            i <= ac@.len(),
            ac@.len() == bc@.len(),
            ac@ == a@,
            bc@ == b@,
            forall|j: int| 0 <= j < i ==> ascii_lower(#[trigger] ac@[j]) == ascii_lower(bc@[j]),
        decreases ac@.len() - i,
    {
        if ascii_lower_exec(ac[i]) != ascii_lower_exec(bc[i]) {
            return false;
        }
        i = i + 1;
    }
    true
}

/// Whether scene `s` is the one the user named: by id, or by name up to ASCII case.
pub open spec fn scene_matches(s: SceneView, id: Seq<char>) -> bool {
    s.id == id || spec_eq_ignore_ascii_case(s.name, id)
}

/// The index of the first scene whose id is `id` or whose name is `id` up to ASCII
/// case.
pub fn find_scene(scenes: &Vec<Scene>, id: &str) -> (r: Option<usize>)
    ensures
        match r {
            Some(i) => i < scenes@.len() && scene_matches(scene_view(scenes@[i as int]), id@)
                && forall|j: int| 0 <= j < i ==> !scene_matches(scene_view(#[trigger] scenes@[j]), id@),
            None => forall|j: int| 0 <= j < scenes@.len() ==> !scene_matches(scene_view(#[trigger] scenes@[j]), id@),
        },
{
    let idc = chars_of(id);
    let mut i: usize = 0;
    while i < scenes.len()
        invariant
            i <= scenes@.len(),
            idc@ == id@,
            forall|j: int| 0 <= j < i ==> !scene_matches(scene_view(#[trigger] scenes@[j]), id@),
        decreases scenes@.len() - i,
    {
        let sid = chars_of(scenes[i].id.as_str());
        if crate::text::same_chars(sid.as_slice(), idc.as_slice()) || eq_ignore_ascii_case(scenes[i].name.as_str(), id) {
            return Some(i);
        }
        i = i + 1;
    }
    None
}

/// The first `ptReal` command of a scene upload decodes to a line that starts
/// `a3 <ff or 00> 01 <lines> 02`: the marker is `ff` exactly when the upload is a single
/// line, the count is the number of upload lines (all commands but the select one), and
/// the other header bytes are fixed whatever the number of lines.
pub proof fn lemma_upload_header(data: Seq<u8>, code: u16)
    requires
        data.len() > 0,
        next_lines(data.len() as int) <= MAX_NEXT_LINES,
    ensures
        ({
            let cmds = spec_lan_commands(data, code);
            let p = spec_b64decode(vstd::utf8::encode_utf8(cmds[0]));
            let lines = cmds.len() - 1;
            &&& cmds.len() >= 2
            &&& p[0] == 0xa3u8
            &&& p[1] == (if lines == 1 { 0xffu8 } else { 0x00u8 })
            &&& p[2] == 0x01u8
            &&& p[3] == lines as u8
            &&& p[4] == 0x02u8
        }),
{
    let cmds = spec_lan_commands(data, code);
    lemma_lan_commands_decode(data, code);
    lemma_scene_lines(data);
    let line = scene_line(data, 0);
    assert(line.len() <= 19);
    lemma_ble_packet_keeps_payload(line);
    let p = spec_b64decode(vstd::utf8::encode_utf8(cmds[0]));
    assert(p == spec_ble_packet(line));
    assert(p.take(line.len() as int)[0] == p[0]);
    assert(p.take(line.len() as int)[1] == p[1]);
    assert(p.take(line.len() as int)[2] == p[2]);
    assert(p.take(line.len() as int)[3] == p[3]);
    assert(p.take(line.len() as int)[4] == p[4]);
}

/// ASCII capitals lower to their small letters (32 code points up) and match them up to
/// ASCII case; every other character is left as it is.
pub proof fn lemma_ascii_case(c: char)
    ensures
        'A' <= c <= 'Z' ==> ascii_lower(c) as u32 == c as u32 + 32,
        'A' <= c <= 'Z' ==> spec_eq_ignore_ascii_case(seq![c], seq![((c as u32) + 32) as char]),
        !('A' <= c <= 'Z') ==> ascii_lower(c) == c,
{
    if 'A' <= c <= 'Z' {
        let l = ((c as u32) + 32) as char;
        assert('a' <= l <= 'z');
        assert(ascii_lower(l) == l);
        assert(seq![c][0] == c && seq![l][0] == l);
    }
}

} // verus!
