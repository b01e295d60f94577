//! The state of the interactive screen and how keys change it. Drawing the
//! screen and reading the keyboard are left to the program; this module
//! decides what each key does.

use vstd::prelude::*;
use vstd::string::*;
use crate::error::IpCalcError;
use crate::ipv4::{ipv4_subnet_views, ipv4_text, push_ipv4, Ipv4Subnet, Ipv4SubnetView};
use crate::ipv6::{
    has_colon, ipv6_subnet_views, ipv6_text, looks_like_ipv6, push_ipv6, Ipv6Subnet,
    Ipv6SubnetView,
};
use crate::subnet_generator::{
    count_subnets, count_value, generate_ipv4_subnets, generate_ipv6_subnets, ipv4_split_value,
    ipv6_split_value, DEFAULT_MAX_GENERATED_SUBNETS,
};
use crate::text::{
    chars_of, decimal_digit, decimal_text, drop_last_char, is_digit, parse_u64, parse_u8,
    push_char, push_decimal, string_views, u64_text_value, u8_text_value,
};

verus! {

/// What the screen does: show one subnet, or split one.
#[derive(Debug, Clone, Copy, PartialEq, Eq, Structural)]
pub enum Mode {
    Calculate,
    Split,
}

/// The input field that takes the keys.
#[derive(Debug, Clone, Copy, PartialEq, Eq, Structural)]
pub enum InputField {
    Cidr,
    Prefix,
    Count,
}

/// A key as far as the screen tells keys apart.
#[derive(Debug, Clone, Copy, PartialEq, Eq, Structural)]
pub enum Key {
    Esc,
    Tab,
    Enter,
    Backspace,
    Up,
    Down,
    Char(char),
    Other,
}

/// Number of lines that one press of the down key assumes the list to have.
pub const SCROLL_ITEMS: usize = 1000;

/// Number of lines that one press of the down key assumes to be visible.
pub const SCROLL_VISIBLE: usize = 10;

/// Everything the screen remembers between two keys.
#[derive(Debug, Clone, PartialEq, Eq)]
pub struct AppState {
    pub mode: Mode,
    pub active_field: InputField,
    pub cidr_input: String,
    pub prefix_input: String,
    pub count_input: String,
    pub use_max: bool,
    pub count_only: bool,
    pub scroll_offset: usize,
    pub error_message: Option<String>,
}

/// The state of the screen with its texts as character sequences.
pub struct AppStateView {
    pub mode: Mode,
    pub active_field: InputField,
    pub cidr_input: Seq<char>,
    pub prefix_input: Seq<char>,
    pub count_input: Seq<char>,
    pub use_max: bool,
    pub count_only: bool,
    pub scroll_offset: usize,
    pub error_message: Option<Seq<char>>,
}

impl View for AppState {
    type V = AppStateView;

    open spec fn view(&self) -> AppStateView {
        AppStateView {
            mode: self.mode,
            active_field: self.active_field,
            cidr_input: self.cidr_input@,
            prefix_input: self.prefix_input@,
            count_input: self.count_input@,
            use_max: self.use_max,
            count_only: self.count_only,
            scroll_offset: self.scroll_offset,
            error_message: match self.error_message {
                Some(m) => Some(m@),
                None => None,
            },
        }
    }
}

/// A text without its last character, or the empty text as it is.
pub open spec fn without_last(s: Seq<char>) -> Seq<char> {
    if s.len() == 0 {
        s
    } else {
        s.drop_last()
    }
}

impl AppStateView {
    /// The state after the key that switches between the two modes: the
    /// other mode, the first field, the list at its top, no error, and no
    /// count-only.
    pub open spec fn toggle_mode(self) -> AppStateView {
        AppStateView {
            mode: match self.mode {
                Mode::Calculate => Mode::Split,
                Mode::Split => Mode::Calculate,
            },
            active_field: InputField::Cidr,
            scroll_offset: 0,
            error_message: None,
            count_only: false,
            ..self
        }
    }

    /// The state after the key that moves on to the next field. Only the
    /// split mode has more than one field.
    pub open spec fn next_field(self) -> AppStateView {
        if self.mode == Mode::Split {
            AppStateView {
                active_field: match self.active_field {
                    InputField::Cidr => InputField::Prefix,
                    InputField::Prefix => InputField::Count,
                    InputField::Count => InputField::Cidr,
                },
                ..self
            }
        } else {
            self
        }
    }

    /// The state after a character was typed. The CIDR field takes any
    /// character, the two number fields only digits; a digit in the count
    /// field ends the request for all subnets. Any character clears the
    /// error.
    pub open spec fn char_input(self, c: char) -> AppStateView {
        match self.active_field {
            InputField::Cidr => AppStateView {
                cidr_input: self.cidr_input.push(c),
                error_message: None,
                ..self
            },
            InputField::Prefix => AppStateView {
                prefix_input: if is_digit(c) {
                    self.prefix_input.push(c)
                } else {
                    self.prefix_input
                },
                error_message: None,
                ..self
            },
            InputField::Count => AppStateView {
                count_input: if is_digit(c) {
                    self.count_input.push(c)
                } else {
                    self.count_input
                },
                use_max: if is_digit(c) {
                    false
                } else {
                    self.use_max
                },
                error_message: None,
                ..self
            },
        }
    }

    /// The state after the backspace key: the active field loses its last
    /// character, and the error is cleared.
    pub open spec fn backspace(self) -> AppStateView {
        match self.active_field {
            InputField::Cidr => AppStateView {
                cidr_input: without_last(self.cidr_input),
                error_message: None,
                ..self
            },
            InputField::Prefix => AppStateView {
                prefix_input: without_last(self.prefix_input),
                error_message: None,
                ..self
            },
            InputField::Count => AppStateView {
                count_input: without_last(self.count_input),
                error_message: None,
                ..self
            },
        }
    }

    /// The state after scrolling up by one line, unless the list is at its
    /// top.
    pub open spec fn scroll_up(self) -> AppStateView {
        if self.scroll_offset > 0 {
            AppStateView { scroll_offset: (self.scroll_offset - 1) as usize, ..self }
        } else {
            self
        }
    }

    /// The state after scrolling down by one line, unless the last of
    /// `max_items` lines is among the `visible_height` lines on screen.
    pub open spec fn scroll_down(self, max_items: usize, visible_height: usize) -> AppStateView {
        if self.scroll_offset + visible_height < max_items {
            AppStateView { scroll_offset: (self.scroll_offset + 1) as usize, ..self }
        } else {
            self
        }
    }

    /// The state after the key that asks for all subnets, which works in
    /// the count field of the split mode only. Asking for all subnets
    /// empties the count and ends count-only.
    pub open spec fn toggle_max(self) -> AppStateView {
        if self.mode == Mode::Split && self.active_field == InputField::Count {
            if self.use_max {
                AppStateView { use_max: false, ..self }
            } else {
                AppStateView {
                    use_max: true,
                    count_input: Seq::empty(),
                    count_only: false,
                    ..self
                }
            }
        } else {
            self
        }
    }

    /// The state after the key that asks for the count only, which works in
    /// the count field of the split mode only. Asking for the count only
    /// empties the count and ends the request for all subnets.
    pub open spec fn toggle_count_only(self) -> AppStateView {
        if self.mode == Mode::Split && self.active_field == InputField::Count {
            if self.count_only {
                AppStateView { count_only: false, ..self }
            } else {
                AppStateView {
                    count_only: true,
                    count_input: Seq::empty(),
                    use_max: false,
                    ..self
                }
            }
        } else {
            self
        }
    }

    /// The state after a key. `Esc` and keys without meaning change
    /// nothing; `m` and `c` in either case toggle a request and are never
    /// typed into a field.
    pub open spec fn after_key(self, key: Key) -> AppStateView {
        match key {
            Key::Esc => self,
            Key::Tab => self.toggle_mode(),
            Key::Enter => self.next_field(),
            Key::Backspace => self.backspace(),
            Key::Up => self.scroll_up(),
            Key::Down => self.scroll_down(SCROLL_ITEMS, SCROLL_VISIBLE),
            Key::Char(c) => if c == 'm' || c == 'M' {
                self.toggle_max()
            } else if c == 'c' || c == 'C' {
                self.toggle_count_only()
            } else {
                self.char_input(c)
            },
            Key::Other => self,
        }
    }
}

impl AppState {
    /// The state in which the screen starts.
    pub fn new() -> (app: AppState)
        ensures
            app@ == (AppStateView {
                mode: Mode::Calculate,
                active_field: InputField::Cidr,
                cidr_input: "192.168.1.0/24"@,
                prefix_input: Seq::empty(),
                count_input: Seq::empty(),
                use_max: false,
                count_only: false,
                scroll_offset: 0,
                error_message: None,
            }),
    {
        AppState {
            mode: Mode::Calculate,
            active_field: InputField::Cidr,
            cidr_input: "192.168.1.0/24".to_owned(),
            prefix_input: String::new(),
            count_input: String::new(),
            use_max: false,
            count_only: false,
            scroll_offset: 0,
            error_message: None,
        }
    }

    /// Switches between showing and splitting.
    pub fn toggle_mode(&mut self)
        ensures
            final(self)@ == old(self)@.toggle_mode(),
    {
        self.mode = match self.mode {
            Mode::Calculate => Mode::Split,
            Mode::Split => Mode::Calculate,
        };
        self.active_field = InputField::Cidr;
        self.scroll_offset = 0;
        self.error_message = None;
        self.count_only = false;
    }

    /// Moves on to the next input field.
    pub fn next_field(&mut self)
        ensures
            final(self)@ == old(self)@.next_field(),
    {
        if self.mode == Mode::Split {
            self.active_field = match self.active_field {
                InputField::Cidr => InputField::Prefix,
                InputField::Prefix => InputField::Count,
                InputField::Count => InputField::Cidr,
            };
        }
    }

    /// Takes a typed character into the active field.
    pub fn handle_char_input(&mut self, c: char)
        ensures
            final(self)@ == old(self)@.char_input(c),
    {
        match self.active_field {
            InputField::Cidr => {
                push_char(&mut self.cidr_input, c);
            },
            InputField::Prefix => {
                if decimal_digit(c).is_some() {
                    push_char(&mut self.prefix_input, c);
                }
            },
            InputField::Count => {
                if decimal_digit(c).is_some() {
                    push_char(&mut self.count_input, c);
                    self.use_max = false;
                }
            },
        }
        self.error_message = None;
    }

    /// Deletes the last character of the active field.
    pub fn handle_backspace(&mut self)
        ensures
            final(self)@ == old(self)@.backspace(),
    {
        match self.active_field {
            InputField::Cidr => {
                drop_last_char(&mut self.cidr_input);
            },
            InputField::Prefix => {
                drop_last_char(&mut self.prefix_input);
            },
            InputField::Count => {
                drop_last_char(&mut self.count_input);
            },
        }
        self.error_message = None;
    }

    /// Scrolls the list up by one line.
    pub fn scroll_up(&mut self)
        ensures
            final(self)@ == old(self)@.scroll_up(),
    {
        if self.scroll_offset > 0 {
            self.scroll_offset = self.scroll_offset - 1;
        }
    }

    /// Scrolls the list down by one line.
    pub fn scroll_down(&mut self, max_items: usize, visible_height: usize)
        ensures
            final(self)@ == old(self)@.scroll_down(max_items, visible_height),
    {
        if visible_height < max_items && self.scroll_offset < max_items - visible_height {
            self.scroll_offset = self.scroll_offset + 1;
        }
    }

    /// Asks for all subnets, or takes the request back.
    pub fn toggle_max(&mut self)
        ensures
            final(self)@ == old(self)@.toggle_max(),
    {
        if self.mode == Mode::Split && self.active_field == InputField::Count {
            self.use_max = !self.use_max;
            if self.use_max {
                self.count_input = String::new();
                self.count_only = false;
            }
        }
    }

    /// Asks for the count only, or takes the request back.
    pub fn toggle_count_only(&mut self)
        ensures
            final(self)@ == old(self)@.toggle_count_only(),
    {
        if self.mode == Mode::Split && self.active_field == InputField::Count {
            self.count_only = !self.count_only;
            if self.count_only {
                self.count_input = String::new();
                self.use_max = false;
            }
        }
    }

    /// Applies a key to the state and tells whether the key ends the
    /// program, which `Esc` alone does.
    pub fn handle_key(&mut self, key: Key) -> (quit: bool)
        ensures
            final(self)@ == old(self)@.after_key(key),
            quit == (key == Key::Esc),
    {
        match key {
            Key::Esc => {
                return true;
            },
            Key::Tab => self.toggle_mode(),
            Key::Enter => self.next_field(),
            Key::Backspace => self.handle_backspace(),
            Key::Up => self.scroll_up(),
            Key::Down => self.scroll_down(SCROLL_ITEMS, SCROLL_VISIBLE),
            Key::Char(c) => {
                if c == 'm' || c == 'M' {
                    self.toggle_max();
                } else if c == 'c' || c == 'C' {
                    self.toggle_count_only();
                } else {
                    self.handle_char_input(c);
                }
            },
            Key::Other => {},
        }
        false
    }
}

/// How a panel is to be shown: as a hint, as an error, or as a result.
#[derive(Debug, Clone, Copy, PartialEq, Eq, Structural)]
pub enum PanelTone {
    Hint,
    Error,
    Result,
}

/// What a panel of the screen shows.
#[derive(Debug, Clone, PartialEq, Eq)]
pub struct Panel {
    /// Whether the panel shows the count only.
    pub count_only: bool,
    /// How the text is to be shown.
    pub tone: PanelTone,
    /// The text of the panel.
    pub text: String,
}

/// A panel with its text as a character sequence.
pub struct PanelView {
    pub count_only: bool,
    pub tone: PanelTone,
    pub text: Seq<char>,
}

impl View for Panel {
    type V = PanelView;

    open spec fn view(&self) -> PanelView {
        PanelView { count_only: self.count_only, tone: self.tone, text: self.text@ }
    }
}

/// Number of lines of a panel that its frame and its heading take.
pub const PANEL_OVERHEAD: u16 = 7;

/// Number of list lines that fit in a panel of the given height.
pub open spec fn visible_lines(height: u16) -> nat {
    if height > PANEL_OVERHEAD {
        (height - PANEL_OVERHEAD) as nat
    } else {
        0
    }
}

/// Index of the first line of a list that is shown: the scroll offset, but
/// at most the index of the last line.
pub open spec fn window_start(scroll_offset: usize, len: nat) -> nat {
    if len == 0 {
        0
    } else if scroll_offset < len - 1 {
        scroll_offset as nat
    } else {
        (len - 1) as nat
    }
}

/// Index after the last line of a list that is shown.
pub open spec fn window_end(start: nat, visible: nat, len: nat) -> nat {
    if start + visible < len {
        start + visible
    } else {
        len
    }
}

/// The lines of a list from `from` up to `to`, each after a line break and
/// with its number, counted from one.
pub open spec fn list_lines(labels: Seq<Seq<char>>, from: nat, to: nat) -> Seq<char>
    decreases to,
{
    if from >= to {
        Seq::empty()
    } else {
        list_lines(labels, from, (to - 1) as nat) + "\n  "@ + decimal_text(to) + ": "@ + labels[to
            - 1]
    }
}

/// The note on the window of a list that does not fit.
pub open spec fn window_note(start: nat, end: nat, len: nat) -> Seq<char> {
    "\n\nShowing "@ + decimal_text(start + 1) + "-"@ + decimal_text(end) + " of "@ + decimal_text(
        len,
    ) + " (use ↑↓ to scroll)"@
}

/// The heading of a split.
pub open spec fn list_heading(network: Seq<char>, new_prefix: u8, count: u64) -> Seq<char> {
    "Supernet: "@ + network + "\nNew Prefix: /"@ + decimal_text(new_prefix as nat)
        + "\nGenerated: "@ + decimal_text(count as nat) + " subnets\n\nSubnets:"@
}

/// The text of a split: a heading, the lines of the window, and a note on
/// the window where the list does not fit.
pub open spec fn list_panel_text(
    network: Seq<char>,
    new_prefix: u8,
    count: u64,
    labels: Seq<Seq<char>>,
    scroll_offset: usize,
    visible: nat,
) -> Seq<char> {
    let start = window_start(scroll_offset, labels.len());
    let end = window_end(start, visible, labels.len());
    list_heading(network, new_prefix, count) + list_lines(labels, start, end) + (if labels.len()
        > visible {
        window_note(start, end, labels.len())
    } else {
        Seq::empty()
    })
}

/// The labels of a list of IPv4 subnets: network address, slash, prefix
/// length.
pub open spec fn ipv4_labels(subnets: Seq<Ipv4SubnetView>) -> Seq<Seq<char>> {
    subnets.map_values(
        |s: Ipv4SubnetView| ipv4_text(s.network) + "/"@ + decimal_text(s.prefix_length as nat),
    )
}

/// The labels of a list of IPv6 subnets.
pub open spec fn ipv6_labels(subnets: Seq<Ipv6SubnetView>) -> Seq<Seq<char>> {
    subnets.map_values(
        |s: Ipv6SubnetView| ipv6_text(s.network) + "/"@ + decimal_text(s.prefix_length as nat),
    )
}

/// The text that the panel shows for an outcome of a count.
pub open spec fn count_panel_text(cidr: Seq<char>, prefix: u8) -> Seq<char> {
    match count_value(cidr, prefix) {
        Ok(s) => "Supernet: "@ + s.supernet + "\nNew Prefix: /"@ + decimal_text(
            s.new_prefix as nat,
        ) + "\nAvailable Subnets: "@ + s.available_subnets,
        Err(e) => "Error: "@ + e.message(),
    }
}

/// The text that the panel shows for a split: the list of subnets in its
/// window, or the error of the split.
pub open spec fn split_panel_text(
    cidr: Seq<char>,
    prefix: u8,
    wanted: Option<u64>,
    scroll_offset: usize,
    visible: nat,
) -> Seq<char> {
    if looks_like_ipv6(cidr) {
        match ipv6_split_value(cidr, prefix, wanted, DEFAULT_MAX_GENERATED_SUBNETS) {
            Ok(list) => list_panel_text(
                ipv6_text(list.supernet.network),
                list.new_prefix,
                list.requested_count,
                ipv6_labels(list.subnets),
                scroll_offset,
                visible,
            ),
            Err(e) => "Error: "@ + e.message(),
        }
    } else {
        match ipv4_split_value(cidr, prefix, wanted, DEFAULT_MAX_GENERATED_SUBNETS) {
            Ok(list) => list_panel_text(
                ipv4_text(list.supernet.network),
                list.new_prefix,
                list.requested_count,
                ipv4_labels(list.subnets),
                scroll_offset,
                visible,
            ),
            Err(e) => "Error: "@ + e.message(),
        }
    }
}

/// What the split panel shows for a state of the screen in a panel of the
/// given height.
///
/// Without a CIDR or a prefix, and without a count or a request in its
/// place, the panel hints at what is missing. A prefix or a count that is
/// no number is an error. Else the panel shows the count of subnets, or the
/// subnets themselves as far as the window reaches; an error of the
/// calculation is shown in their place.
pub open spec fn split_panel_value(app: AppStateView, height: u16) -> PanelView {
    let prefix = u8_text_value(app.prefix_input);
    let count = u64_text_value(app.count_input);
    if app.cidr_input.len() == 0 || app.prefix_input.len() == 0 {
        PanelView {
            count_only: false,
            tone: PanelTone::Hint,
            text: "Enter CIDR and new prefix length to generate subnets"@,
        }
    } else if app.mode == Mode::Split && !app.use_max && !app.count_only && app.count_input.len()
        == 0 {
        PanelView {
            count_only: false,
            tone: PanelTone::Hint,
            text: "Enter count, press 'M' for max, or 'C' for count only"@,
        }
    } else if prefix is None {
        PanelView { count_only: false, tone: PanelTone::Error, text: "Invalid prefix length"@ }
    } else if app.count_only {
        PanelView {
            count_only: true,
            tone: PanelTone::Result,
            text: count_panel_text(app.cidr_input, prefix->0),
        }
    } else if !app.use_max && count is None {
        PanelView { count_only: false, tone: PanelTone::Error, text: "Invalid count"@ }
    } else {
        PanelView {
            count_only: false,
            tone: PanelTone::Result,
            text: split_panel_text(
                app.cidr_input,
                prefix->0,
                if app.use_max {
                    None
                } else {
                    count
                },
                app.scroll_offset,
                visible_lines(height),
            ),
        }
    }
}

/// Builds the labels of a list of IPv4 subnets.
pub fn ipv4_label_list(subnets: &Vec<Ipv4Subnet>) -> (labels: Vec<String>)
    ensures
        string_views(labels@) == ipv4_labels(ipv4_subnet_views(subnets@)),
{
    let mut labels: Vec<String> = Vec::new();
    let mut i: usize = 0;
    while i < subnets.len()
        invariant
            0 <= i <= subnets.len(),
            labels@.len() == i,
            forall|j: int|
                0 <= j < i ==> (#[trigger] labels@[j])@ == ipv4_text(subnets@[j].network) + "/"@
                    + decimal_text(subnets@[j].prefix_length as nat),
        decreases subnets.len() - i,
    {
        let mut label = String::new();
        push_ipv4(&mut label, subnets[i].network);
        label.append("/");
        push_decimal(&mut label, subnets[i].prefix_length as u128);
        assert(label@ =~= ipv4_text(subnets@[i as int].network) + "/"@ + decimal_text(
            subnets@[i as int].prefix_length as nat,
        ));
        labels.push(label);
        i = i + 1;
    }
    assert(string_views(labels@) =~= ipv4_labels(ipv4_subnet_views(subnets@)));
    labels
}

/// Builds the labels of a list of IPv6 subnets.
pub fn ipv6_label_list(subnets: &Vec<Ipv6Subnet>) -> (labels: Vec<String>)
    ensures
        string_views(labels@) == ipv6_labels(ipv6_subnet_views(subnets@)),
{
    let mut labels: Vec<String> = Vec::new();
    let mut i: usize = 0;
    while i < subnets.len()
        invariant
            0 <= i <= subnets.len(),
            labels@.len() == i,
            forall|j: int|
                0 <= j < i ==> (#[trigger] labels@[j])@ == ipv6_text(subnets@[j].network) + "/"@
                    + decimal_text(subnets@[j].prefix_length as nat),
        decreases subnets.len() - i,
    {
        let mut label = String::new();
        push_ipv6(&mut label, subnets[i].network);
        label.append("/");
        push_decimal(&mut label, subnets[i].prefix_length as u128);
        assert(label@ =~= ipv6_text(subnets@[i as int].network) + "/"@ + decimal_text(
            subnets@[i as int].prefix_length as nat,
        ));
        labels.push(label);
        i = i + 1;
    }
    assert(string_views(labels@) =~= ipv6_labels(ipv6_subnet_views(subnets@)));
    labels
}

/// Appends the heading of a split.
fn push_list_heading(text: &mut String, network: &str, new_prefix: u8, count: u64)
    ensures
        final(text)@ == old(text)@ + list_heading(network@, new_prefix, count),
{
    text.append("Supernet: ");
    text.append(network);
    text.append("\nNew Prefix: /");
    push_decimal(text, new_prefix as u128);
    text.append("\nGenerated: ");
    push_decimal(text, count as u128);
    text.append(" subnets\n\nSubnets:");
    assert(text@ =~= old(text)@ + list_heading(network@, new_prefix, count));
}

/// Appends the lines of a list from `from` up to `to`.
fn push_list_lines(text: &mut String, labels: &Vec<String>, from: usize, to: usize)
    requires
        from <= to <= labels.len(),
    ensures
        final(text)@ == old(text)@ + list_lines(string_views(labels@), from as nat, to as nat),
{
    let ghost views = string_views(labels@);
    let mut i: usize = from;
    proof {
        assert(text@ =~= old(text)@ + list_lines(views, from as nat, i as nat));
    }
    while i < to
        invariant
            from <= i <= to <= labels.len(),
            views == string_views(labels@),
            text@ == old(text)@ + list_lines(views, from as nat, i as nat),
        decreases to - i,
    {
        let ghost before = text@;
        text.append("\n  ");
        push_decimal(text, (i as u128) + 1);
        text.append(": ");
        text.append(labels[i].as_str());
        proof {
            assert(views[i as int] == labels@[i as int]@);
            assert(text@ =~= before + "\n  "@ + decimal_text((i + 1) as nat) + ": "@ + views[i as int]);
        }
        i = i + 1;
    }
}

/// Appends the note on the window of a list.
fn push_window_note(text: &mut String, start: usize, end: usize, len: usize)
    ensures
        final(text)@ == old(text)@ + window_note(start as nat, end as nat, len as nat),
{
    text.append("\n\nShowing ");
    push_decimal(text, (start as u128) + 1);
    text.append("-");
    push_decimal(text, end as u128);
    text.append(" of ");
    push_decimal(text, len as u128);
    text.append(" (use ↑↓ to scroll)");
    assert(text@ =~= old(text)@ + window_note(start as nat, end as nat, len as nat));
}

/// Renders the text of a split.
pub fn render_list_panel(
    network: &str,
    new_prefix: u8,
    count: u64,
    labels: &Vec<String>,
    scroll_offset: usize,
    visible: usize,
) -> (text: String)
    ensures
        text@ == list_panel_text(
            network@,
            new_prefix,
            count,
            string_views(labels@),
            scroll_offset,
            visible as nat,
        ),
{
    let len = labels.len();
    let start: usize = if len == 0 {
        0
    } else if scroll_offset < len - 1 {
        scroll_offset
    } else {
        len - 1
    };
    let end: usize = if visible < len - start {
        start + visible
    } else {
        len
    };
    assert(start == window_start(scroll_offset, len as nat));
    assert(end == window_end(start as nat, visible as nat, len as nat));
    let mut text = String::new();
    push_list_heading(&mut text, network, new_prefix, count);
    push_list_lines(&mut text, labels, start, end);
    if len > visible {
        push_window_note(&mut text, start, end, len);
    }
    assert(text@ =~= list_panel_text(
        network@,
        new_prefix,
        count,
        string_views(labels@),
        scroll_offset,
        visible as nat,
    ));
    text
}

/// A message as the text of an error.
fn error_text(e: &IpCalcError) -> (text: String)
    ensures
        text@ == "Error: "@ + e@.message(),
{
    let mut text = String::new();
    text.append("Error: ");
    let message = e.to_string();
    text.append(message.as_str());
    assert(text@ =~= "Error: "@ + e@.message());
    text
}

/// Renders what the panel shows for a count.
pub fn render_count_panel(cidr: &str, prefix: u8) -> (text: String)
    ensures
        text@ == count_panel_text(cidr@, prefix),
{
    match count_subnets(cidr, prefix) {
        Ok(summary) => {
            let mut text = String::new();
            text.append("Supernet: ");
            text.append(summary.supernet.as_str());
            text.append("\nNew Prefix: /");
            push_decimal(&mut text, summary.new_prefix as u128);
            text.append("\nAvailable Subnets: ");
            text.append(summary.available_subnets.as_str());
            assert(text@ =~= "Supernet: "@ + summary@.supernet + "\nNew Prefix: /"@ + decimal_text(
                summary@.new_prefix as nat,
            ) + "\nAvailable Subnets: "@ + summary@.available_subnets);
            text
        },
        Err(e) => error_text(&e),
    }
}

/// Renders what the panel shows for a split.
pub fn render_split_panel(
    cidr: &str,
    prefix: u8,
    wanted: Option<u64>,
    scroll_offset: usize,
    visible: usize,
) -> (text: String)
    ensures
        text@ == split_panel_text(cidr@, prefix, wanted, scroll_offset, visible as nat),
{
    if has_colon(cidr) {
        match generate_ipv6_subnets(cidr, prefix, wanted) {
            Ok(list) => {
                let labels = ipv6_label_list(&list.subnets);
                let mut network = String::new();
                push_ipv6(&mut network, list.supernet.network);
                assert(network@ =~= ipv6_text(list.supernet.network));
                render_list_panel(
                    network.as_str(),
                    list.new_prefix,
                    list.requested_count,
                    &labels,
                    scroll_offset,
                    visible,
                )
            },
            Err(e) => error_text(&e),
        }
    } else {
        match generate_ipv4_subnets(cidr, prefix, wanted) {
            Ok(list) => {
                let labels = ipv4_label_list(&list.subnets);
                let mut network = String::new();
                push_ipv4(&mut network, list.supernet.network);
                assert(network@ =~= ipv4_text(list.supernet.network));
                render_list_panel(
                    network.as_str(),
                    list.new_prefix,
                    list.requested_count,
                    &labels,
                    scroll_offset,
                    visible,
                )
            },
            Err(e) => error_text(&e),
        }
    }
}

impl AppState {
    /// Decides what the split panel shows in a panel of the given height.
    pub fn split_panel(&self, height: u16) -> (panel: Panel)
        ensures
            panel@ == split_panel_value(self@, height),
    {
        if self.cidr_input.as_str().unicode_len() == 0 || self.prefix_input.as_str().unicode_len()
            == 0 {
            return Panel {
                count_only: false,
                tone: PanelTone::Hint,
                text: "Enter CIDR and new prefix length to generate subnets".to_owned(),
            };
        }
        if self.mode == Mode::Split && !self.use_max && !self.count_only
            && self.count_input.as_str().unicode_len() == 0 {
            return Panel {
                count_only: false,
                tone: PanelTone::Hint,
                text: "Enter count, press 'M' for max, or 'C' for count only".to_owned(),
            };
        }
        let prefix_chars = chars_of(self.prefix_input.as_str());
        let prefix = match parse_u8(&prefix_chars) {
            Some(p) => p,
            None => {
                return Panel {
                    count_only: false,
                    tone: PanelTone::Error,
                    text: "Invalid prefix length".to_owned(),
                };
            },
        };
        if self.count_only {
            return Panel {
                count_only: true,
                tone: PanelTone::Result,
                text: render_count_panel(self.cidr_input.as_str(), prefix),
            };
        }
        let wanted: Option<u64> = if self.use_max {
            None
        } else {
            let count_chars = chars_of(self.count_input.as_str());
            match parse_u64(&count_chars) {
                Some(c) => Some(c),
                None => {
                    return Panel {
                        count_only: false,
                        tone: PanelTone::Error,
                        text: "Invalid count".to_owned(),
                    };
                },
            }
        };
        let visible: usize = if height > PANEL_OVERHEAD {
            (height - PANEL_OVERHEAD) as usize
        } else {
            0
        };
        Panel {
            count_only: false,
            tone: PanelTone::Result,
            text: render_split_panel(
                self.cidr_input.as_str(),
                prefix,
                wanted,
                self.scroll_offset,
                visible,
            ),
        }
    }
}

/// The figures of a network that the calculate panel shows.
#[derive(Debug, Clone, PartialEq, Eq)]
pub struct NetFigures {
    /// The network address.
    pub network: String,
    /// The network mask.
    pub netmask: String,
    /// The broadcast address.
    pub broadcast: String,
    /// The first host address, where the network has hosts.
    pub first_host: Option<String>,
    /// The last host address, where the network has hosts.
    pub last_host: Option<String>,
    /// The number of host addresses.
    pub total_hosts: usize,
}

/// The figures of a network with their texts as character sequences.
pub struct NetFiguresView {
    pub network: Seq<char>,
    pub netmask: Seq<char>,
    pub broadcast: Seq<char>,
    pub first_host: Option<Seq<char>>,
    pub last_host: Option<Seq<char>>,
    pub total_hosts: usize,
}

impl View for NetFigures {
    type V = NetFiguresView;

    open spec fn view(&self) -> NetFiguresView {
        NetFiguresView {
            network: self.network@,
            netmask: self.netmask@,
            broadcast: self.broadcast@,
            first_host: match self.first_host {
                Some(h) => Some(h@),
                None => None,
            },
            last_host: match self.last_host {
                Some(h) => Some(h@),
                None => None,
            },
            total_hosts: self.total_hosts,
        }
    }
}

/// The text of the figures of a network. A network without hosts shows its
/// network address in their place.
pub open spec fn figures_text(f: NetFiguresView) -> Seq<char> {
    "Network:    "@ + f.network + "\nNetmask:    "@ + f.netmask + "\nBroadcast:  "@ + f.broadcast
        + "\nFirst Host: "@ + (match f.first_host {
        Some(h) => h,
        None => f.network,
    }) + "\nLast Host:  "@ + (match f.last_host {
        Some(h) => h,
        None => f.network,
    }) + "\nTotal Hosts: "@ + decimal_text(f.total_hosts as nat)
}

/// What the calculate panel shows: the error where there is one, else the
/// figures of the network where the input denotes one, else a hint.
pub open spec fn calculate_panel_value(
    error: Option<Seq<char>>,
    figures: Option<NetFiguresView>,
) -> Seq<char> {
    match error {
        Some(e) => "Error: "@ + e,
        None => match figures {
            Some(f) => figures_text(f),
            None => "Enter a valid CIDR notation"@,
        },
    }
}

/// Renders the figures of a network.
pub fn render_figures(f: &NetFigures) -> (text: String)
    ensures
        text@ == figures_text(f@),
{
    let mut text = String::new();
    text.append("Network:    ");
    text.append(f.network.as_str());
    text.append("\nNetmask:    ");
    text.append(f.netmask.as_str());
    text.append("\nBroadcast:  ");
    text.append(f.broadcast.as_str());
    text.append("\nFirst Host: ");
    match &f.first_host {
        Some(h) => text.append(h.as_str()),
        None => text.append(f.network.as_str()),
    }
    text.append("\nLast Host:  ");
    match &f.last_host {
        Some(h) => text.append(h.as_str()),
        None => text.append(f.network.as_str()),
    }
    text.append("\nTotal Hosts: ");
    push_decimal(&mut text, f.total_hosts as u128);
    assert(text@ =~= figures_text(f@));
    text
}

impl AppState {
    /// Decides what the calculate panel shows, given the figures of the
    /// network that the input denotes, if it denotes one.
    pub fn calculate_panel(&self, figures: &Option<NetFigures>) -> (text: String)
        ensures
            text@ == calculate_panel_value(
                self@.error_message,
                match *figures {
                    Some(f) => Some(f@),
                    None => None,
                },
            ),
    {
        match &self.error_message {
            Some(e) => {
                let mut text = String::new();
                text.append("Error: ");
                text.append(e.as_str());
                assert(text@ =~= "Error: "@ + e@);
                text
            },
            None => match figures {
                Some(f) => render_figures(f),
                None => "Enter a valid CIDR notation".to_owned(),
            },
        }
    }
}

/// The line that names a mode on the screen.
pub open spec fn mode_banner_text(mode: Mode) -> Seq<char> {
    match mode {
        Mode::Calculate => " MODE: Calculate (press TAB to switch to Split) "@,
        Mode::Split => " MODE: Split (press TAB to switch to Calculate) "@,
    }
}

/// The line that lists the keys of a mode.
pub open spec fn mode_help_text(mode: Mode) -> Seq<char> {
    match mode {
        Mode::Calculate => " ESC: Quit | TAB: Switch Mode | Type to edit CIDR "@,
        Mode::Split =>
            " ESC: Quit | TAB: Switch Mode | ENTER: Next Field | M: Max | C: Count Only | ↑↓: Scroll "@,
    }
}

/// What the count field shows: the request that stands in for a count, or
/// the count between two blanks, or one blank for no count.
pub open spec fn count_label_text(app: AppStateView) -> Seq<char> {
    if app.count_only {
        " COUNT ONLY "@
    } else if app.use_max {
        " MAX "@
    } else if app.count_input.len() == 0 {
        " "@
    } else {
        " "@ + app.count_input + " "@
    }
}

impl Mode {
    /// The line that names the mode on the screen.
    pub fn banner(&self) -> (text: &'static str)
        ensures
            text@ == mode_banner_text(*self),
    {
        match self {
            Mode::Calculate => " MODE: Calculate (press TAB to switch to Split) ",
            Mode::Split => " MODE: Split (press TAB to switch to Calculate) ",
        }
    }

    /// The line that lists the keys of the mode.
    pub fn help(&self) -> (text: &'static str)
        ensures
            text@ == mode_help_text(*self),
    {
        match self {
            Mode::Calculate => " ESC: Quit | TAB: Switch Mode | Type to edit CIDR ",
            Mode::Split =>
                " ESC: Quit | TAB: Switch Mode | ENTER: Next Field | M: Max | C: Count Only | ↑↓: Scroll ",
        }
    }
}

impl AppState {
    /// What the count field shows.
    pub fn count_label(&self) -> (text: String)
        ensures
            text@ == count_label_text(self@),
    {
        if self.count_only {
            " COUNT ONLY ".to_owned()
        } else if self.use_max {
            " MAX ".to_owned()
        } else if self.count_input.as_str().unicode_len() == 0 {
            " ".to_owned()
        } else {
            let mut text = String::new();
            text.append(" ");
            text.append(self.count_input.as_str());
            text.append(" ");
            assert(text@ =~= " "@ + self.count_input@ + " "@);
            text
        }
    }
}

} // verus!
