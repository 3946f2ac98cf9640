use vstd::prelude::*;
use crate::text::{spec_lower, spec_trim, spec_contains_seq, str_chars, chars_to_string, trim_chars, lower_char, contains_seq};
use crate::numfmt::spec_udec;

verus! {

// ---------------------------------------------------------------------------
// Interface mode
// ---------------------------------------------------------------------------

#[derive(Clone, Copy, PartialEq, Eq, Structural, Debug)]
pub enum UiMode {
    Tui,
    Qt,
}

/// Lowercasing applied character-wise.
pub open spec fn spec_lower_seq(s: Seq<char>) -> Seq<char> {
    s.map_values(|c: char| spec_lower(c))
}

fn lower_chars(s: &Vec<char>) -> (r: Vec<char>)
    ensures
        r@ == spec_lower_seq(s@),
{
    let mut out: Vec<char> = Vec::new();
    let n = s.len();
    let mut i: usize = 0;
    while i < n
        invariant
            i <= n,
            n == s@.len(),
            out@ =~= spec_lower_seq(s@.subrange(0, i as int)),
        decreases n - i,
    {
        proof {
            assert(spec_lower_seq(s@.subrange(0, i + 1)) =~= spec_lower_seq(
                s@.subrange(0, i as int),
            ).push(spec_lower(s@[i as int])));
        }
        out.push(lower_char(s[i]));
        i = i + 1;
    }
    proof {
        assert(s@.subrange(0, n as int) =~= s@);
    }
    out
}

impl UiMode {
    /// The token this mode is stored under in the configuration.
    pub fn as_config_str(self) -> (r: &'static str)
        ensures
            self is Tui ==> r@ == "tui"@,
            self is Qt ==> r@ == "qt"@,
    {
        match self {
            UiMode::Tui => "tui",
            UiMode::Qt => "qt",
        }
    }

    /// The mode a configuration token names, after trimming and
    /// lowercasing; anything else is no mode.
    pub fn from_config_str(value: &str) -> (r: Option<UiMode>)
        ensures
            ({
                let t = spec_lower_seq(spec_trim(value@));
                &&& (t == "tui"@ ==> r == Some(UiMode::Tui))
                &&& (t == "qt"@ ==> r == Some(UiMode::Qt))
                &&& (t != "tui"@ && t != "qt"@ ==> r is None)
            }),
    {
        let vc = str_chars(value);
        let trimmed = trim_chars(&vc);
        let lowered = lower_chars(&trimmed);
        let tui = vec!['t', 'u', 'i'];
        let qt = vec!['q', 't'];
        proof {
            reveal_strlit("tui");
            reveal_strlit("qt");
            assert(tui@ =~= "tui"@);
            assert(qt@ =~= "qt"@);
        }
        if crate::text::chars_eq(&lowered, &tui) {
            Some(UiMode::Tui)
        } else if crate::text::chars_eq(&lowered, &qt) {
            Some(UiMode::Qt)
        } else {
            None
        }
    }
}

// ---------------------------------------------------------------------------
// The observable status and log aggregate
// ---------------------------------------------------------------------------

/// One log line, with a run count for consecutive repeats.
pub struct UiLogEntry {
    pub text: String,
    pub count: usize,
}

/// The mutable status aggregate the core reports into.
pub struct UiState {
    pub logs: Vec<UiLogEntry>,
    pub mic_ok: bool,
    pub rec_ok: bool,
    pub rcon_ok: bool,
    pub player_online: bool,
    pub player_name: String,
    pub rcon_host: String,
    pub rcon_port: u16,
    pub rcon_password: String,
    pub ui_mode: UiMode,
    pub overlay_error: Option<String>,
}

/// A read-only copy of the aggregate, with log lines rendered.
pub struct UiSnapshot {
    pub logs: Vec<String>,
    pub mic_ok: bool,
    pub rec_ok: bool,
    pub rcon_ok: bool,
    pub player_online: bool,
    pub player_name: String,
    pub rcon_host: String,
    pub rcon_port: u16,
    pub rcon_password: String,
    pub ui_mode: UiMode,
    pub overlay_error: Option<String>,
}

/// At most this many log entries are kept.
pub const LOG_CAPACITY: usize = 256;

impl UiState {
    /// A fresh aggregate: no logs, everything unhealthy, no overlay.
    pub fn new(
        player_name: String,
        rcon_host: String,
        rcon_port: u16,
        rcon_password: String,
        ui_mode: UiMode,
    ) -> (r: UiState)
        ensures
            r.logs@.len() == 0,
            !r.mic_ok && !r.rec_ok && !r.rcon_ok && !r.player_online,
            r.player_name == player_name,
            r.rcon_host == rcon_host,
            r.rcon_port == rcon_port,
            r.rcon_password == rcon_password,
            r.ui_mode == ui_mode,
            r.overlay_error is None,
    {
        UiState {
            logs: Vec::new(),
            mic_ok: false,
            rec_ok: false,
            rcon_ok: false,
            player_online: false,
            player_name,
            rcon_host,
            rcon_port,
            rcon_password,
            ui_mode,
            overlay_error: None,
        }
    }
}

/// A rendered log line: the text, with the repeat count appended when above
/// one.
pub open spec fn spec_render_log(e: UiLogEntry) -> Seq<char> {
    if e.count > 1 {
        e.text@ + " ("@ + spec_udec(e.count as nat) + "x)"@
    } else {
        e.text@
    }
}

fn render_log(e: &UiLogEntry) -> (r: String)
    ensures
        r@ == spec_render_log(*e),
{
    if e.count > 1 {
        let mut out = str_chars(e.text.as_str());
        let ghost base = out@;
        let open_chars = str_chars(" (");
        let mut i: usize = 0;
        let n1 = open_chars.len();
        while i < n1
            invariant
                i <= n1,
                n1 == open_chars@.len(),
                open_chars@ == " ("@,
                out@ =~= base + open_chars@.subrange(0, i as int),
            decreases n1 - i,
        {
            proof {
                assert(base + open_chars@.subrange(0, i + 1) =~= (base + open_chars@.subrange(
                    0,
                    i as int,
                )).push(open_chars@[i as int]));
            }
            out.push(open_chars[i]);
            i = i + 1;
        }
        proof {
            assert(open_chars@.subrange(0, n1 as int) =~= open_chars@);
        }
        let digits = crate::numfmt::u64_to_chars(e.count as u64);
        let ghost base2 = out@;
        let n2 = digits.len();
        let mut j: usize = 0;
        while j < n2
            invariant
                j <= n2,
                n2 == digits@.len(),
                out@ =~= base2 + digits@.subrange(0, j as int),
            decreases n2 - j,
        {
            proof {
                assert(base2 + digits@.subrange(0, j + 1) =~= (base2 + digits@.subrange(
                    0,
                    j as int,
                )).push(digits@[j as int]));
            }
            out.push(digits[j]);
            j = j + 1;
        }
        proof {
            assert(digits@.subrange(0, n2 as int) =~= digits@);
        }
        let close_chars = str_chars("x)");
        let ghost base3 = out@;
        let n3 = close_chars.len();
        let mut k: usize = 0;
        while k < n3
            invariant
                k <= n3,
                n3 == close_chars@.len(),
                close_chars@ == "x)"@,
                out@ =~= base3 + close_chars@.subrange(0, k as int),
            decreases n3 - k,
        {
            proof {
                assert(base3 + close_chars@.subrange(0, k + 1) =~= (base3
                    + close_chars@.subrange(0, k as int)).push(close_chars@[k as int]));
            }
            out.push(close_chars[k]);
            k = k + 1;
        }
        proof {
            assert(close_chars@.subrange(0, n3 as int) =~= close_chars@);
        }
        chars_to_string(&out)
    } else {
        crate::text::clone_string(&e.text)
    }
}

/// A read-only copy of the aggregate, log lines rendered with their repeat
/// counts.
pub fn ui_snapshot(ui: &UiState) -> (r: UiSnapshot)
    ensures
        r.logs@.len() == ui.logs@.len(),
        forall|i: int|
            0 <= i < r.logs@.len() ==> (#[trigger] r.logs@[i])@ == spec_render_log(
                ui.logs@[i],
            ),
        r.mic_ok == ui.mic_ok,
        r.rec_ok == ui.rec_ok,
        r.rcon_ok == ui.rcon_ok,
        r.player_online == ui.player_online,
        r.player_name@ == ui.player_name@,
        r.rcon_host@ == ui.rcon_host@,
        r.rcon_port == ui.rcon_port,
        r.rcon_password@ == ui.rcon_password@,
        r.ui_mode == ui.ui_mode,
        match (r.overlay_error, ui.overlay_error) {
            (Some(a), Some(b)) => a@ == b@,
            (None, None) => true,
            _ => false,
        },
{
    let mut logs: Vec<String> = Vec::new();
    let n = ui.logs.len();
    let mut i: usize = 0;
    while i < n
        invariant
            i <= n,
            n == ui.logs@.len(),
            logs@.len() == i,
            forall|k: int|
                0 <= k < i ==> (#[trigger] logs@[k])@ == spec_render_log(ui.logs@[k]),
        decreases n - i,
    {
        logs.push(render_log(&ui.logs[i]));
        i = i + 1;
    }
    let overlay_error = match &ui.overlay_error {
        Some(e) => Some(crate::text::clone_string(e)),
        None => None,
    };
    UiSnapshot {
        logs,
        mic_ok: ui.mic_ok,
        rec_ok: ui.rec_ok,
        rcon_ok: ui.rcon_ok,
        player_online: ui.player_online,
        player_name: crate::text::clone_string(&ui.player_name),
        rcon_host: crate::text::clone_string(&ui.rcon_host),
        rcon_port: ui.rcon_port,
        rcon_password: crate::text::clone_string(&ui.rcon_password),
        ui_mode: ui.ui_mode,
        overlay_error,
    }
}

/// The overlay text a log line raises, if it signals a failure the user
/// must see; authentication failures get a fixed banner.
pub open spec fn spec_classify_overlay(msg: Seq<char>) -> Option<Seq<char>> {
    let lower = spec_lower_seq(msg);
    if spec_contains_seq(lower, "[rcon-error]"@) || spec_contains_seq(
        lower,
        "rcon authentication failed"@,
    ) {
        if spec_contains_seq(lower, "authentication"@) || spec_contains_seq(lower, "auth"@) {
            Some("RCON: \u{043e}\u{0448}\u{0438}\u{0431}\u{043a}\u{0430} \u{0430}\u{0443}\u{0442}\u{0435}\u{043d}\u{0442}\u{0438}\u{0444}\u{0438}\u{043a}\u{0430}\u{0446}\u{0438}\u{0438}"@)
        } else {
            Some(msg)
        }
    } else if spec_contains_seq(lower, "[rcon-player-error]"@) || spec_contains_seq(
        lower,
        "[notify-error]"@,
    ) || spec_contains_seq(lower, "[microphone-status]"@) || spec_contains_seq(
        lower,
        "[recognizer-error]"@,
    ) || spec_contains_seq(lower, "[settings-error]"@) || spec_contains_seq(
        lower,
        "[restart-error]"@,
    ) || spec_contains_seq(lower, "[backend-error]"@) {
        Some(msg)
    } else {
        None
    }
}

fn contains_lit(lower: &Vec<char>, lit: &str) -> (r: bool)
    ensures
        r == spec_contains_seq(lower@, lit@),
{
    let lc = str_chars(lit);
    contains_seq(lower, &lc)
}

/// Classify a log line for the error overlay; see `spec_classify_overlay`.
pub fn classify_overlay_error(msg: &str) -> (r: Option<String>)
    ensures
        match r {
            Some(s) => spec_classify_overlay(msg@) == Some(s@),
            None => spec_classify_overlay(msg@) is None,
        },
{
    let mc = str_chars(msg);
    let lower = lower_chars(&mc);
    if contains_lit(&lower, "[rcon-error]") || contains_lit(&lower, "rcon authentication failed")
        {
        if contains_lit(&lower, "authentication") || contains_lit(&lower, "auth") {
            let banner =
                "RCON: \u{043e}\u{0448}\u{0438}\u{0431}\u{043a}\u{0430} \u{0430}\u{0443}\u{0442}\u{0435}\u{043d}\u{0442}\u{0438}\u{0444}\u{0438}\u{043a}\u{0430}\u{0446}\u{0438}\u{0438}";
            let bc = str_chars(banner);
            Some(chars_to_string(&bc))
        } else {
            Some(chars_to_string(&mc))
        }
    } else if contains_lit(&lower, "[rcon-player-error]") || contains_lit(
        &lower,
        "[notify-error]",
    ) || contains_lit(&lower, "[microphone-status]") || contains_lit(
        &lower,
        "[recognizer-error]",
    ) || contains_lit(&lower, "[settings-error]") || contains_lit(&lower, "[restart-error]")
        || contains_lit(&lower, "[backend-error]") {
        Some(chars_to_string(&mc))
    } else {
        None
    }
}

/// Whether a command response looks like a server-side error.
pub fn is_rcon_error_like(response: &str) -> (r: bool)
    ensures
        ({
            let lower = spec_lower_seq(response@);
            r == (spec_contains_seq(lower, "unknown or incomplete command"@)
                || spec_contains_seq(lower, "error"@) || spec_contains_seq(
                lower,
                "\u{043e}\u{0448}\u{0438}\u{0431}\u{043a}\u{0430}"@,
            ))
        }),
{
    let rc = str_chars(response);
    let lower = lower_chars(&rc);
    contains_lit(&lower, "unknown or incomplete command") || contains_lit(&lower, "error")
        || contains_lit(&lower, "\u{043e}\u{0448}\u{0438}\u{0431}\u{043a}\u{0430}")
}

/// Append a log line: a repeat of the newest entry only bumps its count;
/// otherwise the line is appended, the oldest entry dropped once the
/// capacity is reached, and the overlay raised if the line warrants one.
pub fn ui_log(ui: &mut UiState, msg: String)
    ensures
        ({
            let old_logs = old(ui).logs@;
            &&& (old_logs.len() > 0 && old_logs.last().text@ == msg@ ==> {
                &&& final(ui).logs@.len() == old_logs.len()
                &&& final(ui).logs@.last().text@ == msg@
                &&& final(ui).logs@.last().count == (if old_logs.last().count < usize::MAX {
                    old_logs.last().count + 1
                } else {
                    old_logs.last().count as int
                })
                &&& final(ui).logs@.drop_last() == old_logs.drop_last()
                &&& final(ui).overlay_error == old(ui).overlay_error
            })
            &&& (!(old_logs.len() > 0 && old_logs.last().text@ == msg@) ==> {
                &&& final(ui).logs@.len() as int == (if old_logs.len() >= LOG_CAPACITY {
                    old_logs.len() as int
                } else {
                    old_logs.len() as int + 1
                })
                &&& final(ui).logs@.last().text@ == msg@
                &&& final(ui).logs@.last().count == 1
                &&& final(ui).logs@.drop_last() == (if old_logs.len() >= LOG_CAPACITY {
                    old_logs.drop_first()
                } else {
                    old_logs
                })
                &&& (match spec_classify_overlay(msg@) {
                    Some(alert) => final(ui).overlay_error matches Some(a) && a@ == alert,
                    None => final(ui).overlay_error == old(ui).overlay_error,
                })
            })
        }),
        final(ui).mic_ok == old(ui).mic_ok,
        final(ui).rec_ok == old(ui).rec_ok,
        final(ui).rcon_ok == old(ui).rcon_ok,
        final(ui).player_online == old(ui).player_online,
        final(ui).player_name == old(ui).player_name,
        final(ui).rcon_host == old(ui).rcon_host,
        final(ui).rcon_port == old(ui).rcon_port,
        final(ui).rcon_password == old(ui).rcon_password,
        final(ui).ui_mode == old(ui).ui_mode,
{
    let n = ui.logs.len();
    if n > 0 {
        let same = crate::text::string_eq(&ui.logs[n - 1].text, &msg);
        if same {
            let slot = &mut ui.logs[n - 1];
            if slot.count < usize::MAX {
                slot.count = slot.count + 1;
            }
            proof {
                assert(final(ui).logs@.drop_last() =~= old(ui).logs@.drop_last());
            }
            return ;
        }
    }
    if n >= LOG_CAPACITY {
        ui.logs.remove(0);
        proof {
            assert(ui.logs@ =~= old(ui).logs@.drop_first());
        }
    }
    match classify_overlay_error(msg.as_str()) {
        Some(alert) => {
            ui.overlay_error = Some(alert);
        },
        None => {},
    }
    let ghost before_push = ui.logs@;
    ui.logs.push(UiLogEntry { text: msg, count: 1 });
    proof {
        assert(ui.logs@.drop_last() =~= before_push);
    }
}

/// Record microphone health; recovery clears the overlay.
pub fn ui_set_mic(ui: &mut UiState, ok: bool)
    ensures
        final(ui).mic_ok == ok,
        ok ==> final(ui).overlay_error is None,
        !ok ==> final(ui).overlay_error == old(ui).overlay_error,
        final(ui).logs == old(ui).logs,
        final(ui).rec_ok == old(ui).rec_ok,
        final(ui).rcon_ok == old(ui).rcon_ok,
        final(ui).player_online == old(ui).player_online,
{
    ui.mic_ok = ok;
    if ok {
        ui.overlay_error = None;
    }
}

/// Record recognizer health; recovery clears the overlay.
pub fn ui_set_rec(ui: &mut UiState, ok: bool)
    ensures
        final(ui).rec_ok == ok,
        ok ==> final(ui).overlay_error is None,
        !ok ==> final(ui).overlay_error == old(ui).overlay_error,
        final(ui).logs == old(ui).logs,
        final(ui).mic_ok == old(ui).mic_ok,
        final(ui).rcon_ok == old(ui).rcon_ok,
        final(ui).player_online == old(ui).player_online,
{
    ui.rec_ok = ok;
    if ok {
        ui.overlay_error = None;
    }
}

/// Record protocol-connection health; recovery clears the overlay.
pub fn ui_set_rcon(ui: &mut UiState, ok: bool)
    ensures
        final(ui).rcon_ok == ok,
        ok ==> final(ui).overlay_error is None,
        !ok ==> final(ui).overlay_error == old(ui).overlay_error,
        final(ui).logs == old(ui).logs,
        final(ui).mic_ok == old(ui).mic_ok,
        final(ui).rec_ok == old(ui).rec_ok,
        final(ui).player_online == old(ui).player_online,
{
    ui.rcon_ok = ok;
    if ok {
        ui.overlay_error = None;
    }
}

/// Record player presence; coming online clears the overlay.
pub fn ui_set_player_online(ui: &mut UiState, online: bool)
    ensures
        final(ui).player_online == online,
        online ==> final(ui).overlay_error is None,
        !online ==> final(ui).overlay_error == old(ui).overlay_error,
        final(ui).logs == old(ui).logs,
        final(ui).mic_ok == old(ui).mic_ok,
        final(ui).rec_ok == old(ui).rec_ok,
        final(ui).rcon_ok == old(ui).rcon_ok,
{
    ui.player_online = online;
    if online {
        ui.overlay_error = None;
    }
}

// ---------------------------------------------------------------------------
// Settings navigation
// ---------------------------------------------------------------------------

#[derive(Clone, Copy, PartialEq, Eq, Structural, Debug)]
pub enum FooterButton {
    Settings,
    Exit,
}

impl FooterButton {
    /// The other footer button.
    pub fn next(self) -> (r: FooterButton)
        ensures
            self is Settings ==> r is Exit,
            self is Exit ==> r is Settings,
    {
        match self {
            FooterButton::Settings => FooterButton::Exit,
            FooterButton::Exit => FooterButton::Settings,
        }
    }

    /// With two buttons, the previous one is the other one.
    pub fn prev(self) -> (r: FooterButton)
        ensures
            self is Settings ==> r is Exit,
            self is Exit ==> r is Settings,
    {
        self.next()
    }
}

#[derive(Clone, Copy, PartialEq, Eq, Structural, Debug)]
pub enum SettingsField {
    Host,
    Port,
    Password,
    PlayerName,
    UiModeField,
}

#[derive(Clone, Copy, PartialEq, Eq, Structural, Debug)]
pub enum SettingsTab {
    Connection,
    App,
}

impl SettingsTab {
    /// The other settings tab.
    pub fn next(self) -> (r: SettingsTab)
        ensures
            self is Connection ==> r is App,
            self is App ==> r is Connection,
    {
        match self {
            SettingsTab::Connection => SettingsTab::App,
            SettingsTab::App => SettingsTab::Connection,
        }
    }

    /// With two tabs, the previous one is the other one.
    pub fn prev(self) -> (r: SettingsTab)
        ensures
            self is Connection ==> r is App,
            self is App ==> r is Connection,
    {
        self.next()
    }
}

/// The fields shown on each tab, in display order.
pub open spec fn spec_fields_for_tab(tab: SettingsTab) -> Seq<SettingsField> {
    match tab {
        SettingsTab::Connection => seq![
            SettingsField::Host,
            SettingsField::Port,
            SettingsField::Password,
        ],
        SettingsTab::App => seq![SettingsField::PlayerName, SettingsField::UiModeField],
    }
}

/// The fields shown on a tab; see `spec_fields_for_tab`.
pub fn settings_fields_for_tab(tab: SettingsTab) -> (r: Vec<SettingsField>)
    ensures
        r@ == spec_fields_for_tab(tab),
{
    match tab {
        SettingsTab::Connection => {
            let r = vec![SettingsField::Host, SettingsField::Port, SettingsField::Password];
            proof {
                assert(r@ =~= spec_fields_for_tab(SettingsTab::Connection));
            }
            r
        },
        SettingsTab::App => {
            let r = vec![SettingsField::PlayerName, SettingsField::UiModeField];
            proof {
                assert(r@ =~= spec_fields_for_tab(SettingsTab::App));
            }
            r
        },
    }
}

/// The index a field takes in a tab's list, or zero when absent.
pub open spec fn spec_field_index(current: SettingsField, tab: SettingsTab) -> int {
    let fields = spec_fields_for_tab(tab);
    if exists|i: int| 0 <= i < fields.len() && fields[i] == current {
        choose|i: int| 0 <= i < fields.len() && fields[i] == current
    } else {
        0
    }
}

fn field_index(current: SettingsField, tab: SettingsTab) -> (r: usize)
    ensures
        r == spec_field_index(current, tab),
        r < spec_fields_for_tab(tab).len(),
{
    let fields = settings_fields_for_tab(tab);
    let n = fields.len();
    let mut i: usize = 0;
    while i < n
        invariant
            i <= n,
            n == fields@.len(),
            fields@ == spec_fields_for_tab(tab),
            forall|k: int| 0 <= k < i ==> fields@[k] != current,
        decreases n - i,
    {
        if fields[i] == current {
            proof {
                let fs = spec_fields_for_tab(tab);
                assert(fs[i as int] == current);
                let w = choose|k: int| 0 <= k < fs.len() && fs[k] == current;
                if w != i {
                    // both tabs list each field at most once
                    assert(false);
                }
            }
            return i;
        }
        i = i + 1;
    }
    proof {
        let fs = spec_fields_for_tab(tab);
        if exists|k: int| 0 <= k < fs.len() && fs[k] == current {
            let w = choose|k: int| 0 <= k < fs.len() && fs[k] == current;
            assert(false);
        }
    }
    0
}

/// The next field on the tab, wrapping around.
pub fn settings_field_next_in_tab(current: SettingsField, tab: SettingsTab) -> (r: SettingsField)
    ensures
        ({
            let fields = spec_fields_for_tab(tab);
            r == fields[(spec_field_index(current, tab) + 1) % (fields.len() as int)]
        }),
{
    let fields = settings_fields_for_tab(tab);
    let idx = field_index(current, tab);
    fields[(idx + 1) % fields.len()]
}

/// The previous field on the tab, wrapping around.
pub fn settings_field_prev_in_tab(current: SettingsField, tab: SettingsTab) -> (r: SettingsField)
    ensures
        ({
            let fields = spec_fields_for_tab(tab);
            r == fields[(spec_field_index(current, tab) + fields.len() - 1) % (
            fields.len() as int)]
        }),
{
    let fields = settings_fields_for_tab(tab);
    let idx = field_index(current, tab);
    fields[(idx + fields.len() - 1) % fields.len()]
}

/// The field selected when a tab is opened.
pub fn default_field_for_tab(tab: SettingsTab) -> (r: SettingsField)
    ensures
        r == spec_fields_for_tab(tab)[0],
{
    let fields = settings_fields_for_tab(tab);
    fields[0]
}

} // verus!
