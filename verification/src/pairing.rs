//! Pairing configuration and what the desktop shows the phone to pair with it:
//! the WebSocket URL, the QR payload and the QR code drawn as SVG.

use vstd::prelude::*;
use base64::Engine;
use rand::RngCore;
use crate::text::{
    contains, decimal, lemma_decimal_digits, lemma_decimal_injective, occurs_at, push_decimal, same_text,
    trim, trim_str,
};
use crate::json::{json_quote, json_quoted};

verus! {

/// The modules of a QR code symbol, row by row, `true` for dark.
#[derive(Clone, Debug, PartialEq, Eq)]
pub struct QrMatrix {
    /// Number of modules per side, without the quiet zone.
    pub width: usize,
    /// `width * width` modules in row-major order.
    pub modules: Vec<bool>,
}

/// What `qrcode::QrCode::new` gives for the UTF-8 bytes of `text`: the side length and
/// the row-major modules of the symbol (as `QrCode::width` and `QrCode::to_vec` read them),
/// or the `Display` text of the error.
pub uninterp spec fn qr_symbol(text: Seq<char>) -> Result<(int, Seq<bool>), Seq<char>>;

/// `qrcode::QrCode::new` on the bytes of `text`, read back with `QrCode::width` and
/// `QrCode::to_vec`. Claimed of it: the result is `qr_symbol(text)`; a symbol has a side
/// between 21 and 177 (versions 1 to 40 of a normal QR code, the only kind `new` builds)
/// and `width * width` modules (the canvas it is drawn on).
#[verifier::external_body]
fn qr_encode(text: &str) -> (r: Result<QrMatrix, String>)
    ensures
        match r {
            Ok(m) => {
                &&& qr_symbol(text@) == Ok::<(int, Seq<bool>), Seq<char>>((m.width as int, m.modules@))
                &&& 21 <= m.width <= 177
                &&& m.modules@.len() == m.width * m.width
            },
            Err(e) => qr_symbol(text@) == Err::<(int, Seq<bool>), Seq<char>>(e@),
        },
{
    match qrcode::QrCode::new(text.as_bytes()) {
        #[allow(deprecated)]
        Ok(code) => Ok(QrMatrix { width: code.width(), modules: code.to_vec() }),
        Err(e) => Err(e.to_string()),
    }
}

/// Pixels per module in the SVG.
pub const QR_SCALE: u32 = 8;

/// Modules of quiet zone on each side.
pub const QR_QUIET: u32 = 4;

/// Side of the SVG in pixels for a symbol of `width` modules.
pub open spec fn svg_dim(width: int) -> int {
    (width + 2 * QR_QUIET) * QR_SCALE
}

/// The opening `<svg>` tag and the white background.
pub open spec fn svg_head(dim: nat) -> Seq<char> {
    "<svg xmlns=\"http://www.w3.org/2000/svg\" width=\""@ + decimal(dim) + "\" height=\""@
        + decimal(dim) + "\" viewBox=\"0 0 "@ + decimal(dim) + " "@ + decimal(dim)
        + "\" shape-rendering=\"crispEdges\">"@ + "<rect width=\""@ + decimal(dim)
        + "\" height=\""@ + decimal(dim) + "\" fill=\"#ffffff\"/>"@
}

/// The black square drawn for the dark module in column `x` and row `y`.
pub open spec fn module_rect(x: nat, y: nat) -> Seq<char> {
    "<rect x=\""@ + decimal(((x + QR_QUIET) * QR_SCALE) as nat) + "\" y=\""@ + decimal(
        ((y + QR_QUIET) * QR_SCALE) as nat,
    ) + "\" width=\""@ + decimal(QR_SCALE as nat) + "\" height=\""@ + decimal(QR_SCALE as nat)
        + "\" fill=\"#000000\"/>"@
}

/// The squares for the dark modules among the first `count` modules, in row-major order.
pub open spec fn dark_rects(modules: Seq<bool>, width: nat, count: nat) -> Seq<char>
    decreases count,
{
    if count == 0 || width == 0 {
        Seq::empty()
    } else {
        let i = (count - 1) as nat;
        dark_rects(modules, width, i) + if modules[i as int] {
            module_rect(i % width, i / width)
        } else {
            Seq::empty()
        }
    }
}

/// The SVG document for a symbol of side `width` with the given modules.
pub open spec fn svg_of(width: nat, modules: Seq<bool>) -> Seq<char> {
    svg_head(svg_dim(width as int) as nat) + dark_rects(modules, width, width * width) + "</svg>"@
}

/// `needle` stays in `s` when more text is put before or after it.
proof fn lemma_contains_extended(pre: Seq<char>, s: Seq<char>, post: Seq<char>, needle: Seq<char>)
    requires
        contains(s, needle),
    ensures
        contains(pre + s + post, needle),
{
    let i = choose|i: int| occurs_at(s, needle, i);
    let j = pre.len() + i;
    assert((pre + s + post).subrange(j, j + needle.len()) =~= s.subrange(i, i + needle.len()));
    assert(occurs_at(pre + s + post, needle, j));
}

/// The square of every dark module among the first `count` is drawn.
proof fn lemma_dark_rects_drawn(modules: Seq<bool>, width: nat, count: nat, i: nat)
    requires
        width > 0,
        i < count,
        count <= modules.len(),
        modules[i as int],
    ensures
        contains(dark_rects(modules, width, count), module_rect(i % width, i / width)),
    decreases count,
{
    let k = (count - 1) as nat;
    let before = dark_rects(modules, width, k);
    let piece = if modules[k as int] {
        module_rect(k % width, k / width)
    } else {
        Seq::<char>::empty()
    };
    assert(dark_rects(modules, width, count) == before + piece);
    if i == k {
        assert((before + piece).subrange(before.len() as int, (before + piece).len() as int) =~= piece);
        assert(occurs_at(before + piece, piece, before.len() as int));
    } else {
        lemma_dark_rects_drawn(modules, width, k, i);
        lemma_contains_extended(Seq::empty(), before, piece, module_rect(i % width, i / width));
        assert(Seq::<char>::empty() + before + piece =~= before + piece);
    }
}

/// The pairing QR code is drawn the right way round: each dark module, in row `r` and
/// column `c` of the symbol, is a black 8-pixel square whose left edge is at
/// `x = (c + 4) * 8` (the column, past the four-module quiet zone) and whose top edge is at
/// `y = (r + 4) * 8` (the row).
pub proof fn law_dark_module_drawn_at_its_place(width: nat, modules: Seq<bool>, r: nat, c: nat)
    requires
        modules.len() == width * width,
        r < width,
        c < width,
        modules[(r * width + c) as int],
    ensures
        contains(
            svg_of(width, modules),
            "<rect x=\""@ + decimal((c + 4) * 8) + "\" y=\""@ + decimal((r + 4) * 8)
                + "\" width=\"8\" height=\"8\" fill=\"#000000\"/>"@,
        ),
{
    let i = (r * width + c) as nat;
    assert(r * width + c < width * width) by (nonlinear_arith)
        requires
            r < width,
            c < width,
    ;
    assert(i % width == c && i / width == r) by (nonlinear_arith)
        requires
            i == r * width + c,
            c < width,
    ;
    lemma_dark_rects_drawn(modules, width, width * width, i);
    reveal_strlit("\" width=\"8\" height=\"8\" fill=\"#000000\"/>");
    reveal_strlit("\" width=\"");
    reveal_strlit("\" height=\"");
    reveal_strlit("\" fill=\"#000000\"/>");
    assert(decimal(8) == seq!['8']);
    assert(module_rect(c, r) =~= "<rect x=\""@ + decimal((c + 4) * 8) + "\" y=\""@ + decimal(
        (r + 4) * 8,
    ) + "\" width=\"8\" height=\"8\" fill=\"#000000\"/>"@);
    lemma_contains_extended(
        svg_head(svg_dim(width as int) as nat),
        dark_rects(modules, width, width * width),
        "</svg>"@,
        module_rect(c, r),
    );
}

/// Darkening module `i` (among the first `count`) inserts its square into the drawn
/// squares and changes nothing else.
proof fn lemma_dark_rects_one_module(modules: Seq<bool>, width: nat, count: nat, i: nat)
    requires
        width > 0,
        i < count,
        count <= modules.len(),
        modules[i as int],
    ensures
        exists|rest: Seq<char>|
            dark_rects(modules, width, count) == dark_rects(modules, width, i) + module_rect(
                i % width,
                i / width,
            ) + rest && dark_rects(modules.update(i as int, false), width, count)
                == #[trigger] (dark_rects(modules, width, i) + rest),
    decreases count,
{
    let light = modules.update(i as int, false);
    let k = (count - 1) as nat;
    let rect = module_rect(i % width, i / width);
    assert(dark_rects(light, width, i) == dark_rects(modules, width, i)) by {
        lemma_dark_rects_agree(modules, light, width, i);
    }
    if k == i {
        let rest = Seq::<char>::empty();
        assert(dark_rects(modules, width, count) =~= dark_rects(modules, width, i) + rect + rest);
        assert(dark_rects(light, width, count) =~= dark_rects(modules, width, i) + rest);
    } else {
        lemma_dark_rects_one_module(modules, width, k, i);
        let rest0 = choose|rest: Seq<char>|
            dark_rects(modules, width, k) == dark_rects(modules, width, i) + rect + rest
                && dark_rects(light, width, k) == #[trigger] (dark_rects(modules, width, i) + rest);
        let piece = if modules[k as int] {
            module_rect(k % width, k / width)
        } else {
            Seq::<char>::empty()
        };
        assert(light[k as int] == modules[k as int]);
        let rest = rest0 + piece;
        assert(dark_rects(modules, width, count) =~= dark_rects(modules, width, i) + rect + rest);
        assert(dark_rects(light, width, count) =~= dark_rects(modules, width, i) + rest);
    }
}

/// Matrices that agree on their first `count` modules draw the same squares for them.
proof fn lemma_dark_rects_agree(a: Seq<bool>, b: Seq<bool>, width: nat, count: nat)
    requires
        count <= a.len(),
        count <= b.len(),
        forall|k: int| 0 <= k < count ==> a[k] == b[k],
    ensures
        dark_rects(a, width, count) == dark_rects(b, width, count),
    decreases count,
{
    if count > 0 && width > 0 {
        lemma_dark_rects_agree(a, b, width, (count - 1) as nat);
    }
}

/// Each dark module is drawn as its own square and nothing else: the image of a symbol is
/// the image of the same symbol with that module light, with one black 8-pixel square
/// inserted, at `x = (c + 4) * 8` for its column `c` and `y = (r + 4) * 8` for its row `r`.
pub proof fn law_dark_module_adds_its_square(width: nat, modules: Seq<bool>, r: nat, c: nat)
    requires
        modules.len() == width * width,
        r < width,
        c < width,
        modules[(r * width + c) as int],
    ensures
        exists|before: Seq<char>, after: Seq<char>|
            svg_of(width, modules) == before + ("<rect x=\""@ + decimal((c + 4) * 8) + "\" y=\""@
                + decimal((r + 4) * 8) + "\" width=\"8\" height=\"8\" fill=\"#000000\"/>"@) + after
                && svg_of(width, modules.update((r * width + c) as int, false)) == #[trigger] (before
                + after),
{
    let i = (r * width + c) as nat;
    assert(r * width + c < width * width) by (nonlinear_arith)
        requires
            r < width,
            c < width,
    ;
    assert(i % width == c && i / width == r) by (nonlinear_arith)
        requires
            i == r * width + c,
            c < width,
    ;
    lemma_dark_rects_one_module(modules, width, width * width, i);
    let light = modules.update(i as int, false);
    let rest = choose|rest: Seq<char>|
        dark_rects(modules, width, width * width) == dark_rects(modules, width, i) + module_rect(
            i % width,
            i / width,
        ) + rest && dark_rects(light, width, width * width) == #[trigger] (dark_rects(modules, width, i)
            + rest);
    reveal_strlit("\" width=\"8\" height=\"8\" fill=\"#000000\"/>");
    reveal_strlit("\" width=\"");
    reveal_strlit("\" height=\"");
    reveal_strlit("\" fill=\"#000000\"/>");
    assert(decimal(8) == seq!['8']);
    let rect = "<rect x=\""@ + decimal((c + 4) * 8) + "\" y=\""@ + decimal((r + 4) * 8)
        + "\" width=\"8\" height=\"8\" fill=\"#000000\"/>"@;
    assert(module_rect(c, r) =~= rect);
    let head = svg_head(svg_dim(width as int) as nat);
    let before = head + dark_rects(modules, width, i);
    let after = rest + "</svg>"@;
    assert(svg_of(width, modules) =~= before + rect + after);
    assert(svg_of(width, light) =~= before + after);
}

/// Draws a QR symbol as an SVG document: a white square with a quiet zone of four modules,
/// and one black `QR_SCALE`-pixel square per dark module.
pub fn render_svg(m: &QrMatrix) -> (s: String)
    requires
        m.modules@.len() == m.width * m.width,
        svg_dim(m.width as int) <= u32::MAX,
    ensures
        s@ == svg_of(m.width as nat, m.modules@),
{
    let n = m.width;
    let dim: u32 = ((n as u32) + QR_QUIET * 2) * QR_SCALE;
    let mut s = String::new();
    s.append("<svg xmlns=\"http://www.w3.org/2000/svg\" width=\"");
    push_decimal(&mut s, dim as u64);
    s.append("\" height=\"");
    push_decimal(&mut s, dim as u64);
    s.append("\" viewBox=\"0 0 ");
    push_decimal(&mut s, dim as u64);
    s.append(" ");
    push_decimal(&mut s, dim as u64);
    s.append("\" shape-rendering=\"crispEdges\">");
    s.append("<rect width=\"");
    push_decimal(&mut s, dim as u64);
    s.append("\" height=\"");
    push_decimal(&mut s, dim as u64);
    s.append("\" fill=\"#ffffff\"/>");
    let ghost head = s@;
    assert(head =~= svg_head(svg_dim(n as int) as nat));
    assert(head + dark_rects(m.modules@, n as nat, 0) =~= head);
    assert((0 * n) as nat == 0nat) by (nonlinear_arith);
    for y in 0..n
        invariant
            n == m.width,
            m.modules@.len() == n * n,
            svg_dim(n as int) <= u32::MAX,
            s@ == head + dark_rects(m.modules@, n as nat, (y * n) as nat),
    {
        proof {
            assert(y * n + n <= n * n) by (nonlinear_arith)
                requires
                    y < n,
            ;
            assert(0 <= y * n) by (nonlinear_arith);
        }
        for x in 0..n
            invariant
                n == m.width,
                y < n,
                y * n + n <= n * n,
                m.modules@.len() == n * n,
                0 <= y * n,
                svg_dim(n as int) <= u32::MAX,
                s@ == head + dark_rects(m.modules@, n as nat, (y * n + x) as nat),
        {
            assert(y * n + x < m.modules@.len());
            assert(m.modules@.len() == m.modules.len());
            let idx = y * n + x;
            let ghost before = s@;
            proof {
                vstd::arithmetic::div_mod::lemma_fundamental_div_mod_converse_mod(
                    idx as int,
                    n as int,
                    y as int,
                    x as int,
                );
                vstd::arithmetic::div_mod::lemma_fundamental_div_mod_converse_div(
                    idx as int,
                    n as int,
                    y as int,
                    x as int,
                );
            }
            if m.modules[idx] {
                let px: u32 = (x as u32 + QR_QUIET) * QR_SCALE;
                let py: u32 = (y as u32 + QR_QUIET) * QR_SCALE;
                s.append("<rect x=\"");
                push_decimal(&mut s, px as u64);
                s.append("\" y=\"");
                push_decimal(&mut s, py as u64);
                s.append("\" width=\"");
                push_decimal(&mut s, QR_SCALE as u64);
                s.append("\" height=\"");
                push_decimal(&mut s, QR_SCALE as u64);
                s.append("\" fill=\"#000000\"/>");
                assert(s@ =~= before + module_rect(x as nat, y as nat));
            } else {
                assert(s@ =~= before + Seq::<char>::empty());
            }
            assert(s@ =~= head + dark_rects(m.modules@, n as nat, (y * n + x + 1) as nat));
        }
        assert((y * n + n) as nat == ((y + 1) * n) as nat) by (nonlinear_arith);
    }
    s.append("</svg>");
    s
}

/// The QR code of `payload` as an inline SVG document, or the encoder's error text.
pub fn qr_svg(payload: &str) -> (r: Result<String, String>)
    ensures
        match qr_symbol(payload@) {
            Ok((w, modules)) => r is Ok && r->Ok_0@ == svg_of(w as nat, modules),
            Err(t) => r is Err && r->Err_0@ == t,
        },
{
    match qr_encode(payload) {
        Ok(m) => {
            assert(svg_dim(m.width as int) <= u32::MAX);
            Ok(render_svg(&m))
        },
        Err(e) => Err(e),
    }
}

/// The pairing settings that persist across restarts.
#[derive(Clone, Debug, PartialEq, Eq)]
pub struct PairingConfig {
    /// Secret the phone presents in its first WebSocket message.
    pub token: String,
    /// Port the WebSocket server listens on (0: let the OS choose).
    pub port: u16,
    /// Host (LAN address) the phone connects to.
    pub host: String,
    /// Name the desktop announces itself by.
    pub name: String,
    /// Whether `host` was set by hand, so that launches keep it.
    pub host_manual: bool,
}

/// A pairing configuration as values.
pub struct PairingView {
    pub token: Seq<char>,
    pub port: u16,
    pub host: Seq<char>,
    pub name: Seq<char>,
    pub host_manual: bool,
}

impl View for PairingConfig {
    type V = PairingView;

    open spec fn view(&self) -> PairingView {
        PairingView {
            token: self.token@,
            port: self.port,
            host: self.host@,
            name: self.name@,
            host_manual: self.host_manual,
        }
    }
}

/// Port of a new configuration: 0 lets the OS pick a free port.
pub const DEFAULT_PORT: u16 = 0;

/// The loopback address, used when no LAN address can be found.
pub const LOOPBACK_IP: &'static str = "127.0.0.1";

/// Name of a desktop whose host name cannot be read.
pub const DEFAULT_NAME: &'static str = "AeroDesk";

/// `ws://host:port`; the token is never part of it.
pub open spec fn ws_url_of(host: Seq<char>, port: u16) -> Seq<char> {
    "ws://"@ + host + ":"@ + decimal(port as nat)
}

/// The WebSocket URL the phone connects to: `ws://host:port`. The token is not in it:
/// the phone sends it in its first message, so that it never shows in a URL log.
pub fn ws_url(cfg: &PairingConfig) -> (r: String)
    ensures
        r@ == ws_url_of(cfg.host@, cfg.port),
{
    let mut s = String::from_str("ws://");
    s.append(cfg.host.as_str());
    s.append(":");
    push_decimal(&mut s, cfg.port as u64);
    s
}

/// The JSON object the QR code carries: version 1, the URL, the token and the desktop's
/// name, members in the order serde_json's default map keeps them (sorted by key).
pub open spec fn qr_payload_of(v: PairingView) -> Seq<char> {
    "{\"name\":"@ + json_quoted(v.name) + ",\"token\":"@ + json_quoted(v.token) + ",\"url\":"@
        + json_quoted(ws_url_of(v.host, v.port)) + ",\"v\":1}"@
}

/// The JSON payload encoded into the QR code, which the phone scans and parses.
pub fn qr_payload(cfg: &PairingConfig) -> (r: String)
    ensures
        r@ == qr_payload_of(cfg@),
{
    let url = ws_url(cfg);
    let mut s = String::from_str("{\"name\":");
    s.append(json_quote(cfg.name.as_str()).as_str());
    s.append(",\"token\":");
    s.append(json_quote(cfg.token.as_str()).as_str());
    s.append(",\"url\":");
    s.append(json_quote(url.as_str()).as_str());
    s.append(",\"v\":1}");
    s
}

/// A loaded configuration is kept only when it has both a token and a host.
pub open spec fn is_usable(v: PairingView) -> bool {
    v.token.len() > 0 && v.host.len() > 0
}

/// The configuration after re-detecting the LAN address `ip` at launch: a host set by hand
/// stays, the loopback address never replaces a host, and any other new address does.
pub open spec fn refreshed(v: PairingView, ip: Seq<char>) -> PairingView {
    if !v.host_manual && ip != LOOPBACK_IP@ && ip != v.host {
        PairingView { host: ip, ..v }
    } else {
        v
    }
}

/// Takes the freshly detected LAN address `ip` into `cfg` as `refreshed` says. Returns
/// whether `cfg` changed, so that the caller saves it.
pub fn refresh_lan_ip(cfg: &mut PairingConfig, ip: &str) -> (changed: bool)
    ensures
        final(cfg)@ == refreshed(old(cfg)@, ip@),
        changed == (final(cfg)@ != old(cfg)@),
{
    if cfg.host_manual {
        return false;
    }
    if !same_text(ip, LOOPBACK_IP) && !same_text(ip, cfg.host.as_str()) {
        cfg.host = String::from_str(ip);
        assert(final(cfg)@.host != old(cfg)@.host);
        true
    } else {
        false
    }
}

/// A new configuration: the given token, host and name, the default port, host not set by hand.
pub open spec fn fresh_config(token: Seq<char>, host: Seq<char>, name: Seq<char>) -> PairingView {
    PairingView { token, port: DEFAULT_PORT, host, name, host_manual: false }
}

/// The configuration to run with, from what was loaded from disk (if anything parsed) and
/// the values detected at this launch. A usable loaded configuration is kept, with its host
/// refreshed; otherwise a new one is made from `token`, `lan_ip` and `hostname`. The flag
/// says whether the result must be saved.
pub fn resolve_config(loaded: Option<PairingConfig>, lan_ip: &str, token: String, hostname: String) -> (r: (PairingConfig, bool))
    ensures
        (loaded is Some && is_usable(loaded->Some_0@)) ==> r.0@ == refreshed(loaded->Some_0@, lan_ip@)
            && r.1 == (r.0@ != loaded->Some_0@),
        !(loaded is Some && is_usable(loaded->Some_0@)) ==> r.0@ == fresh_config(token@, lan_ip@, hostname@)
            && r.1,
{
    if let Some(mut cfg) = loaded {
        if !cfg.token.as_str().is_empty() && !cfg.host.as_str().is_empty() {
            let changed = refresh_lan_ip(&mut cfg, lan_ip);
            return (cfg, changed);
        }
    }
    (PairingConfig { token, port: DEFAULT_PORT, host: String::from_str(lan_ip), name: hostname, host_manual: false }, true)
}

/// A configuration whose host was set by hand to (the trimmed) `host`.
pub open spec fn with_manual_host(v: PairingView, host: Seq<char>) -> PairingView {
    PairingView { host: trim(host), host_manual: true, ..v }
}

/// Sets the host by hand, without surrounding white space. The host is marked as set by
/// hand, so that later launches keep it instead of the detected LAN address.
pub fn set_host(cfg: &mut PairingConfig, host: &str)
    ensures
        final(cfg)@ == with_manual_host(old(cfg)@, host@),
{
    cfg.host = trim_str(host);
    cfg.host_manual = true;
}

/// Takes the port that the server actually bound into `cfg`. Returns whether it changed,
/// so that the caller saves it.
pub fn record_bound_port(cfg: &mut PairingConfig, actual_port: u16) -> (changed: bool)
    ensures
        final(cfg)@ == (PairingView { port: actual_port, ..old(cfg)@ }),
        changed == (old(cfg).port != actual_port),
{
    if cfg.port != actual_port {
        cfg.port = actual_port;
        true
    } else {
        false
    }
}

/// Number of random bytes in a token.
pub const TOKEN_BYTES: usize = 24;

/// Length of the unpadded base64 text of `n` bytes.
pub open spec fn base64_unpadded_len(n: nat) -> nat {
    4 * (n / 3) + if n % 3 == 0 {
        0
    } else {
        n % 3 + 1
    }
}

/// A character of the URL-safe base64 alphabet.
pub open spec fn is_url_safe_base64(c: char) -> bool {
    ('A' <= c && c <= 'Z') || ('a' <= c && c <= 'z') || ('0' <= c && c <= '9') || c == '-' || c
        == '_'
}

/// The character of the URL-safe base64 alphabet (`A`-`Z`, `a`-`z`, `0`-`9`, `-`, `_`) for
/// the 6-bit value `n`.
pub open spec fn url_safe_char(n: u8) -> char {
    if n < 26 {
        (65 + n) as char
    } else if n < 52 {
        (97 + (n - 26)) as char
    } else if n < 62 {
        (48 + (n - 52)) as char
    } else if n == 62 {
        '-'
    } else {
        '_'
    }
}

/// The unpadded URL-safe base64 text of `bytes` (RFC 4648, section 5): each group of three
/// bytes becomes four characters of six bits each, most significant first; a last group of
/// one or two bytes becomes two or three characters, its missing low bits zero.
pub open spec fn base64_url_unpadded(bytes: Seq<u8>) -> Seq<char>
    decreases bytes.len(),
{
    if bytes.len() == 0 {
        Seq::empty()
    } else if bytes.len() == 1 {
        seq![url_safe_char(bytes[0] >> 2), url_safe_char((bytes[0] & 3) << 4)]
    } else if bytes.len() == 2 {
        seq![
            url_safe_char(bytes[0] >> 2),
            url_safe_char(((bytes[0] & 3) << 4) | (bytes[1] >> 4)),
            url_safe_char((bytes[1] & 15) << 2),
        ]
    } else {
        seq![
            url_safe_char(bytes[0] >> 2),
            url_safe_char(((bytes[0] & 3) << 4) | (bytes[1] >> 4)),
            url_safe_char(((bytes[1] & 15) << 2) | (bytes[2] >> 6)),
            url_safe_char(bytes[2] & 63),
        ] + base64_url_unpadded(bytes.subrange(3, bytes.len() as int))
    }
}

/// `base64::engine::general_purpose::URL_SAFE_NO_PAD.encode`. Claimed of it: the result is
/// the unpadded URL-safe base64 text `base64_url_unpadded(bytes)`, as long as
/// `base64::encoded_len(n, false)` computes. It panics when that length overflows `usize`,
/// which `requires` leaves out.
#[verifier::external_body]
fn encode_base64_url(bytes: &[u8]) -> (r: String)
    requires
        bytes@.len() / 3 * 4 + 3 <= usize::MAX,
    ensures
        r@ == base64_url_unpadded(bytes@),
{
    base64::engine::general_purpose::URL_SAFE_NO_PAD.encode(bytes)
}

/// Every 6-bit value has its own character, and it is one of the URL-safe alphabet.
proof fn lemma_url_safe_char(x: u8, y: u8)
    requires
        x < 64,
        y < 64,
    ensures
        is_url_safe_base64(url_safe_char(x)),
        url_safe_char(x) == url_safe_char(y) ==> x == y,
{
}

/// The length of the base64 text, and that it is made of the URL-safe alphabet.
pub proof fn lemma_base64_shape(bytes: Seq<u8>)
    ensures
        base64_url_unpadded(bytes).len() == base64_unpadded_len(bytes.len()),
        forall|i: int|
            0 <= i < base64_url_unpadded(bytes).len() ==> is_url_safe_base64(
                #[trigger] base64_url_unpadded(bytes)[i],
            ),
    decreases bytes.len(),
{
    if bytes.len() > 0 {
        let b0 = bytes[0];
        assert(b0 >> 2 < 64 && (b0 & 3) << 4 < 64 && b0 & 63 < 64) by (bit_vector);
        lemma_url_safe_char(b0 >> 2, 0);
        lemma_url_safe_char((b0 & 3) << 4, 0);
        if bytes.len() >= 2 {
            let b1 = bytes[1];
            assert(((b0 & 3) << 4) | (b1 >> 4) < 64 && (b1 & 15) << 2 < 64) by (bit_vector);
            lemma_url_safe_char(((b0 & 3) << 4) | (b1 >> 4), 0);
            lemma_url_safe_char((b1 & 15) << 2, 0);
        }
        if bytes.len() >= 3 {
            let b1 = bytes[1];
            let b2 = bytes[2];
            assert(((b1 & 15) << 2) | (b2 >> 6) < 64 && b2 & 63 < 64) by (bit_vector);
            lemma_url_safe_char(((b1 & 15) << 2) | (b2 >> 6), 0);
            lemma_url_safe_char(b2 & 63, 0);
            lemma_base64_shape(bytes.subrange(3, bytes.len() as int));
        }
    }
}

/// Base64 text decodes back to the bytes it was made of: different bytes never give the
/// same text.
pub proof fn lemma_base64_injective(a: Seq<u8>, b: Seq<u8>)
    requires
        base64_url_unpadded(a) == base64_url_unpadded(b),
    ensures
        a == b,
    decreases a.len(),
{
    lemma_base64_shape(a);
    lemma_base64_shape(b);
    assert(a.len() == b.len()) by {
        let n = a.len();
        let m = b.len();
        assert(base64_unpadded_len(n) == base64_unpadded_len(m));
    }
    let ea = base64_url_unpadded(a);
    let eb = base64_url_unpadded(b);
    if a.len() > 0 {
        let (a0, b0) = (a[0], b[0]);
        assert(a0 >> 2 < 64 && (a0 & 3) << 4 < 64) by (bit_vector);
        assert(b0 >> 2 < 64 && (b0 & 3) << 4 < 64) by (bit_vector);
        assert(ea[0] == eb[0]);
        lemma_url_safe_char(a0 >> 2, b0 >> 2);
        if a.len() == 1 {
            assert(ea[1] == eb[1]);
            lemma_url_safe_char((a0 & 3) << 4, (b0 & 3) << 4);
            assert(a0 == b0) by (bit_vector)
                requires
                    a0 >> 2 == b0 >> 2,
                    (a0 & 3) << 4 == (b0 & 3) << 4,
            ;
            assert(a =~= b);
        } else {
            let (a1, b1) = (a[1], b[1]);
            assert(((a0 & 3) << 4) | (a1 >> 4) < 64 && (a1 & 15) << 2 < 64) by (bit_vector);
            assert(((b0 & 3) << 4) | (b1 >> 4) < 64 && (b1 & 15) << 2 < 64) by (bit_vector);
            assert(ea[1] == eb[1]);
            lemma_url_safe_char(((a0 & 3) << 4) | (a1 >> 4), ((b0 & 3) << 4) | (b1 >> 4));
            if a.len() == 2 {
                assert(ea[2] == eb[2]);
                lemma_url_safe_char((a1 & 15) << 2, (b1 & 15) << 2);
                assert(a0 == b0 && a1 == b1) by (bit_vector)
                    requires
                        a0 >> 2 == b0 >> 2,
                        ((a0 & 3) << 4) | (a1 >> 4) == ((b0 & 3) << 4) | (b1 >> 4),
                        (a1 & 15) << 2 == (b1 & 15) << 2,
                ;
                assert(a =~= b);
            } else {
                let (a2, b2) = (a[2], b[2]);
                assert(((a1 & 15) << 2) | (a2 >> 6) < 64 && a2 & 63 < 64) by (bit_vector);
                assert(((b1 & 15) << 2) | (b2 >> 6) < 64 && b2 & 63 < 64) by (bit_vector);
                assert(ea[2] == eb[2]);
                assert(ea[3] == eb[3]);
                lemma_url_safe_char(((a1 & 15) << 2) | (a2 >> 6), ((b1 & 15) << 2) | (b2 >> 6));
                lemma_url_safe_char(a2 & 63, b2 & 63);
                assert(a0 == b0 && a1 == b1 && a2 == b2) by (bit_vector)
                    requires
                        a0 >> 2 == b0 >> 2,
                        ((a0 & 3) << 4) | (a1 >> 4) == ((b0 & 3) << 4) | (b1 >> 4),
                        ((a1 & 15) << 2) | (a2 >> 6) == ((b1 & 15) << 2) | (b2 >> 6),
                        a2 & 63 == b2 & 63,
                ;
                let ra = a.subrange(3, a.len() as int);
                let rb = b.subrange(3, b.len() as int);
                assert(base64_url_unpadded(ra) =~= ea.subrange(4, ea.len() as int));
                assert(base64_url_unpadded(rb) =~= eb.subrange(4, eb.len() as int));
                lemma_base64_injective(ra, rb);
                assert forall|i: int| 3 <= i < a.len() implies a[i] == b[i] by {
                    assert(ra[i - 3] == rb[i - 3]);
                }
                assert(a =~= b);
            }
        }
    }
}

/// `rand::thread_rng().fill_bytes` on `n` zero bytes. Claimed of it: `n` bytes come back;
/// what they hold is left to chance.
#[verifier::external_body]
fn random_bytes(n: usize) -> (b: Vec<u8>)
    ensures
        b@.len() == n,
{
    let mut bytes = vec![0u8; n];
    rand::thread_rng().fill_bytes(&mut bytes);
    bytes
}

/// A new pairing secret: the unpadded URL-safe base64 text of 24 random bytes, so 32
/// characters of that alphabet, from which the bytes can be read back
/// (`lemma_base64_injective`).
pub fn gen_token() -> (t: String)
    ensures
        exists|b: Seq<u8>| b.len() == TOKEN_BYTES && t@ == base64_url_unpadded(b),
        t@.len() == 32,
        forall|i: int| 0 <= i < t@.len() ==> is_url_safe_base64(#[trigger] t@[i]),
{
    let bytes = random_bytes(TOKEN_BYTES);
    let t = encode_base64_url(bytes.as_slice());
    proof {
        lemma_base64_shape(bytes@);
    }
    assert(bytes@.len() == TOKEN_BYTES && t@ == base64_url_unpadded(bytes@));
    t
}

/// `local_ip_address::local_ip`, written with `IpAddr`'s `Display`. Claimed of it: an
/// address that was found is written as non-empty text (a dotted quad or an IPv6 address).
/// Which address comes back, and whether one does, depends on the machine's network
/// interfaces and is not claimed.
#[verifier::external_body]
fn local_ip_text() -> (r: Option<String>)
    ensures
        r matches Some(s) ==> s@.len() > 0,
{
    local_ip_address::local_ip().ok().map(|ip| ip.to_string())
}

/// The detected LAN address, or the loopback address when none was found.
pub fn lan_ip_or_loopback(detected: Option<String>) -> (ip: String)
    ensures
        ip@ == match detected {
            Some(s) => s@,
            None => LOOPBACK_IP@,
        },
{
    match detected {
        Some(s) => s,
        None => String::from_str(LOOPBACK_IP),
    }
}

/// The machine's LAN address, or `127.0.0.1` when it cannot be found; never empty.
pub fn detect_lan_ip() -> (ip: String)
    ensures
        ip@.len() > 0,
{
    proof {
        reveal_strlit("127.0.0.1");
    }
    lan_ip_or_loopback(local_ip_text())
}

/// `hostname::get`, kept when it is valid Unicode. Nothing is claimed of the result: it
/// depends on the machine.
#[verifier::external_body]
fn system_hostname() -> Option<String> {
    hostname::get().ok().and_then(|h| h.into_string().ok())
}

/// The host name read from the system, or `AeroDesk` when it cannot be read.
pub fn hostname_or_default(read: Option<String>) -> (name: String)
    ensures
        name@ == match read {
            Some(s) => s@,
            None => DEFAULT_NAME@,
        },
{
    match read {
        Some(s) => s,
        None => String::from_str(DEFAULT_NAME),
    }
}

/// The machine's host name, or `AeroDesk`.
pub fn detect_hostname() -> String {
    hostname_or_default(system_hostname())
}

/// The configuration to run with at launch, from what was loaded from disk (`None` when
/// there was no file or it did not parse): a usable one is kept with its host refreshed,
/// otherwise a new one is made with a fresh token. Either way the result is usable, so the
/// next launch keeps it. The flag says whether to save it.
pub fn load_or_init(loaded: Option<PairingConfig>) -> (r: (PairingConfig, bool))
    ensures
        is_usable(r.0@),
        (loaded is Some && is_usable(loaded->Some_0@)) ==> {
            let old = loaded->Some_0@;
            &&& r.0.token@ == old.token
            &&& r.0.port == old.port
            &&& r.0.name@ == old.name
            &&& r.0.host_manual == old.host_manual
            &&& old.host_manual ==> r.0.host@ == old.host
            &&& r.1 == (r.0@ != old)
        },
        !(loaded is Some && is_usable(loaded->Some_0@)) ==> {
            &&& exists|b: Seq<u8>| b.len() == TOKEN_BYTES && r.0.token@ == base64_url_unpadded(b)
            &&& r.0.token@.len() == 32
            &&& forall|i: int| 0 <= i < r.0.token@.len() ==> is_url_safe_base64(#[trigger] r.0.token@[i])
            &&& r.0.port == DEFAULT_PORT
            &&& !r.0.host_manual
            &&& r.1
        },
        (loaded is Some && is_usable(loaded->Some_0@)) ==> exists|ip: String|
            #[trigger] call_ensures(detect_lan_ip, (), ip) && r.0@ == refreshed(loaded->Some_0@, ip@),
        !(loaded is Some && is_usable(loaded->Some_0@)) ==> exists|ip: String, token: String, name: String|
            #![trigger call_ensures(detect_lan_ip, (), ip), call_ensures(gen_token, (), token), call_ensures(detect_hostname, (), name)]
            call_ensures(detect_lan_ip, (), ip) && call_ensures(gen_token, (), token) && call_ensures(
                detect_hostname,
                (),
                name,
            ) && r.0@ == fresh_config(token@, ip@, name@),
{
    let usable = match &loaded {
        Some(cfg) => !cfg.token.as_str().is_empty() && !cfg.host.as_str().is_empty(),
        None => false,
    };
    let lan_ip = detect_lan_ip();
    if usable {
        let r = resolve_config(loaded, lan_ip.as_str(), String::new(), String::new());
        assert(call_ensures(detect_lan_ip, (), lan_ip));
        r
    } else {
        let token = gen_token();
        let name = detect_hostname();
        let ghost (t, n) = (token, name);
        let r = resolve_config(loaded, lan_ip.as_str(), token, name);
        assert(call_ensures(detect_lan_ip, (), lan_ip) && call_ensures(gen_token, (), t)
            && call_ensures(detect_hostname, (), n));
        r
    }
}

/// What the window shows to pair with: URL, token, host, port, name and the QR code.
#[derive(Clone, Debug, PartialEq, Eq)]
pub struct PairingInfo {
    pub url: String,
    pub token: String,
    pub host: String,
    pub port: u16,
    pub name: String,
    /// The QR code of `qr_payload` as SVG, empty when it cannot be encoded.
    pub qr_svg: String,
}

/// The pairing information for `cfg`.
pub fn build_info(cfg: &PairingConfig) -> (info: PairingInfo)
    ensures
        info.url@ == ws_url_of(cfg.host@, cfg.port),
        info.token@ == cfg.token@,
        info.host@ == cfg.host@,
        info.port == cfg.port,
        info.name@ == cfg.name@,
        info.qr_svg@ == match qr_symbol(qr_payload_of(cfg@)) {
            Ok((w, modules)) => svg_of(w as nat, modules),
            Err(_) => Seq::empty(),
        },
{
    let payload = qr_payload(cfg);
    let qr = match qr_svg(payload.as_str()) {
        Ok(svg) => svg,
        Err(_) => String::new(),
    };
    PairingInfo {
        url: ws_url(cfg),
        token: cfg.token.clone(),
        host: cfg.host.clone(),
        port: cfg.port,
        name: cfg.name.clone(),
        qr_svg: qr,
    }
}

/// At every launch a usable saved pairing follows the LAN address detected then
/// (`detect_lan_ip`'s result): unless the host was set by hand or only the loopback address
/// was found, the host becomes that address; otherwise it stays. Token, port, name and the
/// manual flag are kept, and the configuration is saved exactly when its host changed.
pub proof fn law_launch_follows_lan_address(loaded: Option<PairingConfig>, r: (PairingConfig, bool))
    requires
        call_ensures(load_or_init, (loaded,), r),
        loaded is Some,
        is_usable(loaded->Some_0@),
    ensures
        exists|ip: String|
            #[trigger] call_ensures(detect_lan_ip, (), ip) && {
                let old = loaded->Some_0@;
                &&& r.0.token@ == old.token
                &&& r.0.port == old.port
                &&& r.0.name@ == old.name
                &&& r.0.host_manual == old.host_manual
                &&& (!old.host_manual && ip@ != LOOPBACK_IP@) ==> r.0.host@ == ip@
                &&& (old.host_manual || ip@ == LOOPBACK_IP@) ==> r.0.host@ == old.host
                &&& r.1 == (r.0.host@ != old.host)
            },
{
    let ip = choose|ip: String|
        #[trigger] call_ensures(detect_lan_ip, (), ip) && r.0@ == refreshed(loaded->Some_0@, ip@);
    let old = loaded->Some_0@;
    assert(r.0@ != old <==> r.0.host@ != old.host);
    assert(call_ensures(detect_lan_ip, (), ip));
}

/// A first launch (nothing usable was saved) makes a configuration from what this launch
/// detects: the host is the LAN address `detect_lan_ip` found (`127.0.0.1` only when none
/// was), the token a fresh one from `gen_token`, the name the machine's from
/// `detect_hostname`; the default port, not set by hand, and it is saved.
pub proof fn law_first_launch_uses_lan_address(loaded: Option<PairingConfig>, r: (PairingConfig, bool))
    requires
        call_ensures(load_or_init, (loaded,), r),
        !(loaded is Some && is_usable(loaded->Some_0@)),
    ensures
        exists|ip: String, token: String, name: String|
            #![trigger call_ensures(detect_lan_ip, (), ip), call_ensures(gen_token, (), token), call_ensures(detect_hostname, (), name)]
            {
                &&& call_ensures(detect_lan_ip, (), ip)
                &&& call_ensures(gen_token, (), token)
                &&& call_ensures(detect_hostname, (), name)
                &&& r.0.host@ == ip@
                &&& r.0.token@ == token@
                &&& r.0.name@ == name@
                &&& r.0.port == DEFAULT_PORT
                &&& !r.0.host_manual
                &&& r.1
            },
{
    let (ip, token, name) = choose|ip: String, token: String, name: String|
        #![trigger call_ensures(detect_lan_ip, (), ip), call_ensures(gen_token, (), token), call_ensures(detect_hostname, (), name)]
        call_ensures(detect_lan_ip, (), ip) && call_ensures(gen_token, (), token) && call_ensures(
            detect_hostname,
            (),
            name,
        ) && r.0@ == fresh_config(token@, ip@, name@);
    assert(call_ensures(detect_lan_ip, (), ip) && call_ensures(gen_token, (), token)
        && call_ensures(detect_hostname, (), name));
}

/// Restarting keeps a usable pairing: token, port, name and the manual flag survive the
/// LAN refresh, and the configuration stays usable whenever a non-empty address was detected.
pub proof fn law_restart_keeps_pairing(v: PairingView, ip: Seq<char>)
    requires
        is_usable(v),
    ensures
        refreshed(v, ip).token == v.token,
        refreshed(v, ip).port == v.port,
        refreshed(v, ip).name == v.name,
        refreshed(v, ip).host_manual == v.host_manual,
        ip.len() > 0 ==> is_usable(refreshed(v, ip)),
{
}

/// A host saved by hand wins over the detected LAN address at every later launch.
pub proof fn law_manual_host_survives_restart(v: PairingView, host: Seq<char>, ip: Seq<char>)
    ensures
        refreshed(with_manual_host(v, host), ip) == with_manual_host(v, host),
        with_manual_host(v, host).host == trim(host),
{
}

/// Detecting only the loopback address never replaces the host.
pub proof fn law_loopback_keeps_host(v: PairingView)
    ensures
        refreshed(v, LOOPBACK_IP@) == v,
{
}

/// Refreshing twice with the same address changes nothing more than refreshing once.
pub proof fn law_refresh_idempotent(v: PairingView, ip: Seq<char>)
    ensures
        refreshed(refreshed(v, ip), ip) == refreshed(v, ip),
{
}

/// A configuration made at first launch is kept by the next one, token included, as long
/// as its token and host are not empty.
pub proof fn law_fresh_config_is_kept(token: Seq<char>, host: Seq<char>, name: Seq<char>, ip: Seq<char>)
    requires
        token.len() > 0,
        host.len() > 0,
    ensures
        is_usable(fresh_config(token, host, name)),
        refreshed(fresh_config(token, host, name), ip).token == token,
{
}

/// The URL does not depend on the token: configurations that differ only in their token
/// give the same URL.
pub proof fn law_url_leaves_out_token(a: PairingView, b: PairingView)
    requires
        a.host == b.host,
        a.port == b.port,
    ensures
        ws_url_of(a.host, a.port) == ws_url_of(b.host, b.port),
{
}

/// The URL gives back the host and the port it was made from: the port is the digits after
/// the last `:`, so two different (host, port) pairs never share a URL.
pub proof fn law_url_determines_host_and_port(h1: Seq<char>, p1: u16, h2: Seq<char>, p2: u16)
    requires
        ws_url_of(h1, p1) == ws_url_of(h2, p2),
    ensures
        h1 == h2,
        p1 == p2,
{
    let d1 = decimal(p1 as nat);
    let d2 = decimal(p2 as nat);
    lemma_decimal_digits(p1 as nat);
    lemma_decimal_digits(p2 as nat);
    let a1 = "ws://"@ + h1 + ":"@;
    let a2 = "ws://"@ + h2 + ":"@;
    let s = ws_url_of(h1, p1);
    reveal_strlit(":");
    reveal_strlit("ws://");
    assert(s =~= a1 + d1);
    assert(s =~= a2 + d2);
    if d1.len() < d2.len() {
        let k = s.len() - d1.len() - 1;
        assert(s[k] == ':');
        assert(s[k] == d2[k - a2.len()]);
    } else if d2.len() < d1.len() {
        let k = s.len() - d2.len() - 1;
        assert(s[k] == ':');
        assert(s[k] == d1[k - a1.len()]);
    }
    assert(d1 =~= s.subrange(a1.len() as int, s.len() as int));
    assert(d2 =~= s.subrange(a2.len() as int, s.len() as int));
    lemma_decimal_injective(p1 as nat, p2 as nat);
    assert(h1 =~= s.subrange(5, s.len() - d1.len() - 1));
    assert(h2 =~= s.subrange(5, s.len() - d2.len() - 1));
}

} // verus!
