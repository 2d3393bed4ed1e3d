//! The editor in whose terminal the browser runs, and how it opens a line.

use crate::interactive::tree::{forward_slashes, slashed};
use crate::text::{
    concat, concat3, contains, decimal, decimal_of, has_infix, is_one_of, lowercase, opt_view,
    same_str, to_lowercase, views,
};
use vstd::prelude::*;
use vstd::string::*;

verus! {

/// An editor with an integrated terminal.
#[derive(Debug)]
pub enum Ide {
    VsCode,
    JetBrains { launcher: String, label: String },
    Zed,
}

/// How a line is opened: by a URL, or by a program that is spawned.
#[derive(Debug)]
pub enum Launch {
    Url(String),
    Program { program: String, args: Vec<String> },
}

/// The mathematical value of an [`Ide`].
pub enum IdeView {
    VsCode,
    JetBrains { launcher: Seq<char>, label: Seq<char> },
    Zed,
}

/// The mathematical value of a [`Launch`].
pub enum LaunchView {
    Url(Seq<char>),
    Program { program: Seq<char>, args: Seq<Seq<char>> },
}

impl View for Ide {
    type V = IdeView;

    open spec fn view(&self) -> IdeView {
        match self {
            Ide::VsCode => IdeView::VsCode,
            Ide::JetBrains { launcher, label } => IdeView::JetBrains {
                launcher: launcher@,
                label: label@,
            },
            Ide::Zed => IdeView::Zed,
        }
    }
}

impl View for Launch {
    type V = LaunchView;

    open spec fn view(&self) -> LaunchView {
        match self {
            Launch::Url(u) => LaunchView::Url(u@),
            Launch::Program { program, args } => LaunchView::Program {
                program: program@,
                args: views(args@),
            },
        }
    }
}

// ---------------------------------------------------------------------------
// URL paths
// ---------------------------------------------------------------------------

/// Is this a byte that stands for itself in a URL path?
pub open spec fn url_safe(b: u8) -> bool {
    crate::ascii::ident_continue(b) || b == 0x2d || b == 0x2e || b == 0x7e || b == 0x2f || b == 0x3a
}

/// The upper-case hexadecimal digit of a value below sixteen.
pub open spec fn hex_digit(d: int) -> char {
    if d == 0 { '0' } else if d == 1 { '1' } else if d == 2 { '2' } else if d == 3 { '3' }
    else if d == 4 { '4' } else if d == 5 { '5' } else if d == 6 { '6' } else if d == 7 { '7' }
    else if d == 8 { '8' } else if d == 9 { '9' } else if d == 10 { 'A' } else if d == 11 { 'B' }
    else if d == 12 { 'C' } else if d == 13 { 'D' } else if d == 14 { 'E' } else { 'F' }
}

fn hex_digit_of(d: u8) -> (r: char)
    requires
        d < 16,
    ensures
        r == hex_digit(d as int),
{
    if d == 0 { '0' } else if d == 1 { '1' } else if d == 2 { '2' } else if d == 3 { '3' }
    else if d == 4 { '4' } else if d == 5 { '5' } else if d == 6 { '6' } else if d == 7 { '7' }
    else if d == 8 { '8' } else if d == 9 { '9' } else if d == 10 { 'A' } else if d == 11 { 'B' }
    else if d == 12 { 'C' } else if d == 13 { 'D' } else if d == 14 { 'E' } else { 'F' }
}

/// The first `k` bytes with those that are not safe percent-encoded.
pub open spec fn percent_encoded(bytes: Seq<u8>, k: int) -> Seq<char>
    decreases k,
{
    if k <= 0 {
        Seq::empty()
    } else {
        let before = percent_encoded(bytes, k - 1);
        let b = bytes[k - 1];
        if url_safe(b) {
            before.push(b as char)
        } else {
            before.push('%').push(hex_digit(b as int / 16)).push(hex_digit(b as int % 16))
        }
    }
}

/// A path with forward slashes and with one in front.
pub open spec fn rooted(path: Seq<char>) -> Seq<char> {
    let forward = slashed(path);
    if forward.len() > 0 && forward[0] == '/' {
        forward
    } else {
        seq!['/'] + forward
    }
}

/// The path of a file in a URL: with forward slashes, rooted, and with the UTF-8
/// bytes that are not safe percent-encoded.
pub open spec fn url_path(path: Seq<char>) -> Seq<char> {
    let bytes = vstd::utf8::encode_utf8(rooted(path));
    percent_encoded(bytes, bytes.len() as int)
}

/// The path of a file in a URL.
pub fn vscode_uri_path(path: &str) -> (r: String)
    ensures
        r@ == url_path(path@),
{
    let forward = forward_slashes(path);
    let c = crate::text::chars_of(&forward);
    let rooted = if c.len() > 0 && c[0] == '/' {
        forward
    } else {
        let mut s = String::new();
        s.push('/');
        s.append(&forward);
        assert(s@ =~= seq!['/'] + forward@);
        s
    };
    let bytes = rooted.as_str().as_bytes();
    let mut out = String::new();
    let mut k: usize = 0;
    assert(out@ =~= Seq::empty());
    while k < bytes.len()
        invariant
            k <= bytes@.len(),
            out@ == percent_encoded(bytes@, k as int),
        decreases bytes@.len() - k,
    {
        let b = bytes[k];
        if crate::ascii::is_ident_continue(b) || b == 0x2d || b == 0x2e || b == 0x7e || b == 0x2f || b
            == 0x3a {
            out.push(b as char);
        } else {
            out.push('%');
            out.push(hex_digit_of(b / 16));
            out.push(hex_digit_of(b % 16));
        }
        k += 1;
    }
    out
}

/// A path in a URL starts with a slash and holds safe characters and percent signs
/// only.
pub proof fn url_paths_are_safe(path: Seq<char>)
    ensures
        url_path(path).len() > 0,
        url_path(path)[0] == '/',
        forall|i: int| 0 <= i < url_path(path).len() ==> url_char(#[trigger] url_path(path)[i]),
{
    let bytes = vstd::utf8::encode_utf8(rooted(path));
    slash_encodes(rooted(path));
    percent_encoded_is_safe(bytes, bytes.len() as int);
    percent_encoded_starts(bytes, bytes.len() as int);
}

/// Is this a character that a URL path may hold?
pub open spec fn url_char(c: char) -> bool {
    ('a' <= c && c <= 'z') || ('A' <= c && c <= 'Z') || ('0' <= c && c <= '9') || c == '_' || c == '-'
        || c == '.' || c == '~' || c == '/' || c == ':' || c == '%'
}

proof fn slash_encodes(s: Seq<char>)
    requires
        s.len() > 0,
        s[0] == '/',
    ensures
        vstd::utf8::encode_utf8(s).len() > 0,
        vstd::utf8::encode_utf8(s)[0] == 0x2f,
{
    assert('/' as u32 == 0x2f);
    assert((0x2fu32 & 0x7f) as u8 == 0x2f) by (bit_vector);
    assert(vstd::utf8::encode_scalar(0x2f)[0] == 0x2f);
}

proof fn percent_encoded_is_safe(bytes: Seq<u8>, k: int)
    requires
        0 <= k <= bytes.len(),
    ensures
        forall|i: int|
            0 <= i < percent_encoded(bytes, k).len() ==> url_char(
                #[trigger] percent_encoded(bytes, k)[i],
            ),
    decreases k,
{
    if k > 0 {
        percent_encoded_is_safe(bytes, k - 1);
        let before = percent_encoded(bytes, k - 1);
        let all = percent_encoded(bytes, k);
        assert forall|i: int| 0 <= i < all.len() implies url_char(#[trigger] all[i]) by {
            if i < before.len() {
                assert(all[i] == before[i]);
            }
        }
    }
}

proof fn percent_encoded_starts(bytes: Seq<u8>, k: int)
    requires
        0 < k <= bytes.len(),
        bytes[0] == 0x2f,
    ensures
        percent_encoded(bytes, k).len() > 0,
        percent_encoded(bytes, k)[0] == '/',
    decreases k,
{
    if k > 1 {
        percent_encoded_starts(bytes, k - 1);
    } else {
        assert(percent_encoded(bytes, 0).len() == 0);
    }
}

/// The value of a hexadecimal digit.
pub open spec fn hex_value(c: char) -> int {
    if '0' <= c && c <= '9' {
        c as int - '0' as int
    } else if 'A' <= c && c <= 'F' {
        c as int - 'A' as int + 10
    } else if 'a' <= c && c <= 'f' {
        c as int - 'a' as int + 10
    } else {
        0
    }
}

/// The bytes that `s[i..]` percent-encodes.
pub open spec fn percent_decoded(s: Seq<char>, i: int) -> Seq<u8>
    decreases s.len() - i,
{
    if i < 0 || i >= s.len() {
        Seq::empty()
    } else if s[i] == '%' && i + 2 < s.len() {
        seq![(hex_value(s[i + 1]) * 16 + hex_value(s[i + 2])) as u8] + percent_decoded(s, i + 3)
    } else {
        seq![s[i] as u32 as u8] + percent_decoded(s, i + 1)
    }
}

proof fn percent_encoded_goes_on(bytes: Seq<u8>, k: int, n: int)
    requires
        0 <= k <= n <= bytes.len(),
    ensures
        percent_encoded(bytes, k).is_prefix_of(percent_encoded(bytes, n)),
    decreases n - k,
{
    if k < n {
        percent_encoded_goes_on(bytes, k, n - 1);
        assert(percent_encoded(bytes, n - 1).is_prefix_of(percent_encoded(bytes, n)));
    }
}

proof fn hex_digits_write(b: u8)
    ensures
        hex_value(hex_digit(b as int / 16)) * 16 + hex_value(hex_digit(b as int % 16)) == b,
{
    assert(0 <= b as int / 16 < 16);
}

proof fn percent_decoding_undoes(bytes: Seq<u8>, k: int, n: int)
    requires
        0 <= k <= n <= bytes.len(),
    ensures
        percent_decoded(percent_encoded(bytes, n), percent_encoded(bytes, k).len() as int)
            == bytes.subrange(k, n),
    decreases n - k,
{
    let s = percent_encoded(bytes, n);
    let before = percent_encoded(bytes, k);
    let i = before.len() as int;
    percent_encoded_goes_on(bytes, k, n);
    if k < n {
        let b = bytes[k];
        let after = percent_encoded(bytes, k + 1);
        percent_encoded_goes_on(bytes, k + 1, n);
        percent_decoding_undoes(bytes, k + 1, n);
        assert(bytes.subrange(k, n) =~= seq![b] + bytes.subrange(k + 1, n));
        assert(s[i] == after[i]);
        if url_safe(b) {
            assert(s[i] == b as char);
            assert(s[i] != '%');
        } else {
            assert(s[i + 1] == after[i + 1]);
            assert(s[i + 2] == after[i + 2]);
            hex_digits_write(b);
        }
    } else {
        assert(s =~= before);
        assert(bytes.subrange(k, n) =~= Seq::empty());
    }
}

/// Whoever decodes the path in a URL gets the rooted path back.
pub proof fn url_paths_decode(path: Seq<char>)
    ensures
        vstd::utf8::decode_utf8(percent_decoded(url_path(path), 0)) == rooted(path),
{
    let bytes = vstd::utf8::encode_utf8(rooted(path));
    let n = bytes.len() as int;
    percent_decoding_undoes(bytes, 0, n);
    assert(percent_encoded(bytes, 0).len() == 0);
    assert(bytes.subrange(0, n) =~= bytes);
    vstd::utf8::encode_utf8_decode_utf8(rooted(path));
}

// ---------------------------------------------------------------------------
// Opening
// ---------------------------------------------------------------------------

/// How an editor opens a place.
pub open spec fn launch_of(ide: IdeView, path: Seq<char>, line: nat, column: nat) -> LaunchView {
    match ide {
        IdeView::VsCode => LaunchView::Url(
            "vscode://file"@ + url_path(path) + ":"@ + decimal(line) + ":"@ + decimal(column),
        ),
        IdeView::JetBrains { launcher, .. } => LaunchView::Program {
            program: launcher,
            args: seq!["--line"@, decimal(line), path],
        },
        IdeView::Zed => LaunchView::Program {
            program: "zed"@,
            args: seq![path + ":"@ + decimal(line) + ":"@ + decimal(column)],
        },
    }
}

/// The name of an editor.
pub open spec fn ide_label(ide: IdeView) -> Seq<char> {
    match ide {
        IdeView::VsCode => "VS Code"@,
        IdeView::JetBrains { label, .. } => label,
        IdeView::Zed => "Zed"@,
    }
}

/// What is said when an editor could not be launched.
pub open spec fn ide_error(ide: IdeView) -> Seq<char> {
    match ide {
        IdeView::Zed => "zed not found on PATH (run 'zed: install cli')"@,
        IdeView::JetBrains { launcher, .. } => launcher + " not found on PATH"@,
        IdeView::VsCode => "could not hand off to VS Code"@,
    }
}

impl Ide {
    /// The name of the editor.
    pub fn label(&self) -> (r: &str)
        ensures
            r@ == ide_label(self@),
    {
        match self {
            Ide::VsCode => "VS Code",
            Ide::JetBrains { label, .. } => label,
            Ide::Zed => "Zed",
        }
    }

    /// How to open `path` at `line` and `column` in the running editor. The
    /// launchers of JetBrains editors take no column.
    pub fn open(&self, path: &str, line: usize, column: usize) -> (r: Launch)
        ensures
            r@ == launch_of(self@, path@, line as nat, column as nat),
    {
        match self {
            Ide::VsCode => {
                let mut url = concat3("vscode://file", &vscode_uri_path(path), ":");
                url.append(&decimal_of(line));
                url.append(":");
                url.append(&decimal_of(column));
                Launch::Url(url)
            },
            Ide::JetBrains { launcher, .. } => {
                let mut args: Vec<String> = Vec::new();
                args.push("--line".to_owned());
                args.push(decimal_of(line));
                args.push(path.to_owned());
                assert(views(args@) =~= seq!["--line"@, decimal(line as nat), path@]);
                Launch::Program { program: launcher.clone(), args }
            },
            Ide::Zed => {
                let mut place = concat3(path, ":", &decimal_of(line));
                place.append(":");
                place.append(&decimal_of(column));
                let mut args: Vec<String> = Vec::new();
                args.push(place);
                assert(views(args@) =~= seq![place@]);
                Launch::Program { program: "zed".to_owned(), args }
            },
        }
    }

    /// What to say when the editor could not be launched.
    pub fn open_error(&self) -> (r: String)
        ensures
            r@ == ide_error(self@),
    {
        match self {
            Ide::Zed => "zed not found on PATH (run 'zed: install cli')".to_owned(),
            Ide::JetBrains { launcher, .. } => concat(launcher, " not found on PATH"),
            Ide::VsCode => "could not hand off to VS Code".to_owned(),
        }
    }
}

// ---------------------------------------------------------------------------
// Detection
// ---------------------------------------------------------------------------

/// A JetBrains editor: what identifies it, its launcher and its name.
pub struct Product {
    pub hint: &'static str,
    pub launcher: &'static str,
    pub label: &'static str,
}

/// The mathematical value of a [`Product`].
pub struct ProductView {
    pub hint: Seq<char>,
    pub launcher: Seq<char>,
    pub label: Seq<char>,
}

impl View for Product {
    type V = ProductView;

    open spec fn view(&self) -> ProductView {
        ProductView { hint: self.hint@, launcher: self.launcher@, label: self.label@ }
    }
}

/// The JetBrains editors, in the order in which they are guessed.
pub open spec fn product_list() -> Seq<ProductView> {
    seq![
        ProductView { hint: "intellij"@, launcher: "idea"@, label: "IntelliJ IDEA"@ },
        ProductView { hint: "pycharm"@, launcher: "pycharm"@, label: "PyCharm"@ },
        ProductView { hint: "clion"@, launcher: "clion"@, label: "CLion"@ },
        ProductView { hint: "webstorm"@, launcher: "webstorm"@, label: "WebStorm"@ },
        ProductView { hint: "goland"@, launcher: "goland"@, label: "GoLand"@ },
        ProductView { hint: "rider"@, launcher: "rider"@, label: "Rider"@ },
        ProductView { hint: "phpstorm"@, launcher: "phpstorm"@, label: "PhpStorm"@ },
        ProductView { hint: "rubymine"@, launcher: "rubymine"@, label: "RubyMine"@ },
        ProductView { hint: "datagrip"@, launcher: "datagrip"@, label: "DataGrip"@ },
    ]
}

/// The JetBrains editors, in the order in which they are guessed.
pub fn products() -> (r: Vec<Product>)
    ensures
        views(r@) == product_list(),
{
    let mut r: Vec<Product> = Vec::new();
    r.push(Product { hint: "intellij", launcher: "idea", label: "IntelliJ IDEA" });
    r.push(Product { hint: "pycharm", launcher: "pycharm", label: "PyCharm" });
    r.push(Product { hint: "clion", launcher: "clion", label: "CLion" });
    r.push(Product { hint: "webstorm", launcher: "webstorm", label: "WebStorm" });
    r.push(Product { hint: "goland", launcher: "goland", label: "GoLand" });
    r.push(Product { hint: "rider", launcher: "rider", label: "Rider" });
    r.push(Product { hint: "phpstorm", launcher: "phpstorm", label: "PhpStorm" });
    r.push(Product { hint: "rubymine", launcher: "rubymine", label: "RubyMine" });
    r.push(Product { hint: "datagrip", launcher: "datagrip", label: "DataGrip" });
    assert(views(r@) =~= product_list());
    r
}

/// The first of the products from `i` on whose hint stands in a text.
pub open spec fn product_in(text: Seq<char>, i: int) -> Option<ProductView>
    decreases product_list().len() - i,
{
    if i < 0 || i >= product_list().len() {
        None
    } else if has_infix(text, product_list()[i].hint) {
        Some(product_list()[i])
    } else {
        product_in(text, i + 1)
    }
}

/// The first of the products from `i` on whose launcher is at hand.
pub open spec fn product_at_hand(launchers: Seq<Seq<char>>, i: int) -> Option<ProductView>
    decreases product_list().len() - i,
{
    if i < 0 || i >= product_list().len() {
        None
    } else if launchers.contains(product_list()[i].launcher) {
        Some(product_list()[i])
    } else {
        product_at_hand(launchers, i + 1)
    }
}

/// The JetBrains editor that owns the terminal: the one that the service name
/// identifies, else the first whose launcher is at hand, else a guess.
pub open spec fn jetbrains_owner_of(service: Option<Seq<char>>, launchers: Seq<Seq<char>>) -> IdeView {
    let named = match service {
        Some(s) => product_in(lowercase(s), 0),
        None => None,
    };
    match named {
        Some(p) => IdeView::JetBrains { launcher: p.launcher, label: p.label },
        None => match product_at_hand(launchers, 0) {
            Some(p) => IdeView::JetBrains { launcher: p.launcher, label: p.label },
            None => IdeView::JetBrains { launcher: "idea"@, label: "JetBrains IDE"@ },
        },
    }
}

fn jetbrains(p: &Product) -> (r: Ide)
    ensures
        r@ == (IdeView::JetBrains { launcher: p@.launcher, label: p@.label }),
{
    Ide::JetBrains { launcher: p.launcher.to_owned(), label: p.label.to_owned() }
}

fn jetbrains_from_blob(blob: &str) -> (r: Option<Ide>)
    ensures
        match product_in(lowercase(blob@), 0) {
            Some(p) => r matches Some(ide) && ide@ == (IdeView::JetBrains {
                launcher: p.launcher,
                label: p.label,
            }),
            None => r is None,
        },
{
    let text = to_lowercase(blob);
    let all = products();
    let ghost list = product_list();
    let mut i: usize = 0;
    while i < all.len()
        invariant
            i <= all@.len(),
            views(all@) == list,
            list == product_list(),
            text@ == lowercase(blob@),
            product_in(text@, i as int) == product_in(text@, 0),
        decreases all@.len() - i,
    {
        assert(list[i as int] == all@[i as int]@);
        if contains(&text, all[i].hint) {
            return Some(jetbrains(&all[i]));
        }
        i += 1;
    }
    assert(list.len() == all@.len());
    None
}

fn jetbrains_owner(service: Option<&str>, launchers: &[String]) -> (r: Ide)
    ensures
        r@ == jetbrains_owner_of(
            crate::interactive::editor::str_view(service),
            views(launchers@),
        ),
{
    if let Some(s) = service {
        if let Some(ide) = jetbrains_from_blob(s) {
            return ide;
        }
    }
    let all = products();
    let ghost list = product_list();
    let ghost at_hand = views(launchers@);
    let mut i: usize = 0;
    while i < all.len()
        invariant
            i <= all@.len(),
            views(all@) == list,
            list == product_list(),
            at_hand == views(launchers@),
            match service {
                Some(s) => product_in(lowercase(s@), 0) is None,
                None => true,
            },
            product_at_hand(at_hand, i as int) == product_at_hand(at_hand, 0),
        decreases all@.len() - i,
    {
        assert(list[i as int] == all@[i as int]@);
        if is_one_of(all[i].launcher, launchers) {
            return jetbrains(&all[i]);
        }
        i += 1;
    }
    assert(list.len() == all@.len());
    Ide::JetBrains { launcher: "idea".to_owned(), label: "JetBrains IDE".to_owned() }
}

/// The values of the environment variables that editors set in their terminals.
pub struct TerminalEnv {
    pub term_program: Option<String>,
    pub terminal_emulator: Option<String>,
    pub zed_term: Option<String>,
    pub service_name: Option<String>,
}

/// The editor in whose terminal the browser runs; `None` in a plain terminal.
pub open spec fn detected(
    term_program: Option<Seq<char>>,
    terminal_emulator: Option<Seq<char>>,
    zed_term: Option<Seq<char>>,
    service: Option<Seq<char>>,
    launchers: Seq<Seq<char>>,
) -> Option<IdeView> {
    if term_program == Some("vscode"@) {
        Some(IdeView::VsCode)
    } else if terminal_emulator == Some("JetBrains-JediTerm"@) {
        Some(jetbrains_owner_of(service, launchers))
    } else if term_program == Some("zed"@) || zed_term == Some("true"@) {
        Some(IdeView::Zed)
    } else {
        None
    }
}

fn is_set_to(v: &Option<String>, s: &str) -> (r: bool)
    ensures
        r == (opt_view(*v) == Some(s@)),
{
    match v {
        Some(t) => same_str(t, s),
        None => false,
    }
}

/// Detects the editor in whose terminal the browser runs. `launchers` are the
/// launchers of JetBrains editors that can be found.
pub fn detect(env: &TerminalEnv, launchers: &[String]) -> (r: Option<Ide>)
    ensures
        opt_view(r) == detected(
            opt_view(env.term_program),
            opt_view(env.terminal_emulator),
            opt_view(env.zed_term),
            opt_view(env.service_name),
            views(launchers@),
        ),
{
    if is_set_to(&env.term_program, "vscode") {
        return Some(Ide::VsCode);
    }
    if is_set_to(&env.terminal_emulator, "JetBrains-JediTerm") {
        let service = match &env.service_name {
            Some(s) => Some(s.as_str()),
            None => None,
        };
        return Some(jetbrains_owner(service, launchers));
    }
    if is_set_to(&env.term_program, "zed") || is_set_to(&env.zed_term, "true") {
        return Some(Ide::Zed);
    }
    None
}

} // verus!
