//! The drawer's configuration: layout, behaviour switches and the ordered
//! list of shortcuts, with the rules for adding, scanning, removing and
//! reordering shortcuts.
use vstd::prelude::*;
use crate::clock::unix_millis_now;
use crate::paths::{
    extension, extension_spec, file_stem, file_name_spec, file_stem_spec, has_root, is_plain_name,
    is_sep, is_shareless_verbatim_unc, join, lemma_shareless_join, join_spec, law_joined_names_share_folder, parent_key, parse_prefix,
    path_components, prefix_key, same_path, same_path_spec, working_folder,
};
use crate::text::{
    chars_of, contains_seq, decimal, push_char, str_contains, str_eq, to_lowercase, u128_to_decimal,
    unicode_lowercase,
};

verus! {

/// How the shortcuts are laid out in the drawer.
#[derive(Clone, Copy, Debug, PartialEq, Eq, Structural)]
pub enum LayoutMode {
    Grid,
    List,
}

impl LayoutMode {
    /// The other layout: the one the layout button switches to.
    pub fn toggled(self) -> (r: LayoutMode)
        ensures
            r == toggled_spec(self),
    {
        match self {
            LayoutMode::Grid => LayoutMode::List,
            LayoutMode::List => LayoutMode::Grid,
        }
    }
}

/// The layout the layout button switches to.
pub open spec fn toggled_spec(m: LayoutMode) -> LayoutMode {
    match m {
        LayoutMode::Grid => LayoutMode::List,
        LayoutMode::List => LayoutMode::Grid,
    }
}

/// One shortcut of the drawer.
#[derive(Clone, Debug)]
pub struct ShortcutItem {
    pub id: String,
    pub name: String,
    pub path: String,
    pub args: Option<String>,
    pub custom_icon: Option<String>,
    pub run_as_admin: bool,
    pub silent: bool,
}

/// A shortcut as values.
pub struct ShortcutItemView {
    pub id: Seq<char>,
    pub name: Seq<char>,
    pub path: Seq<char>,
    pub args: Option<Seq<char>>,
    pub custom_icon: Option<Seq<char>>,
    pub run_as_admin: bool,
    pub silent: bool,
}

/// The characters of an optional string.
pub open spec fn opt_view(o: Option<String>) -> Option<Seq<char>> {
    match o {
        Some(s) => Some(s@),
        None => None,
    }
}

impl View for ShortcutItem {
    type V = ShortcutItemView;

    open spec fn view(&self) -> ShortcutItemView {
        ShortcutItemView {
            id: self.id@,
            name: self.name@,
            path: self.path@,
            args: opt_view(self.args),
            custom_icon: opt_view(self.custom_icon),
            run_as_admin: self.run_as_admin,
            silent: self.silent,
        }
    }
}

/// The whole configuration of the drawer.
#[derive(Clone, Debug)]
pub struct AppConfig {
    pub layout: LayoutMode,
    pub auto_exit_on_launch: bool,
    pub auto_exit_on_blur: bool,
    pub auto_show_on_tray_hover: bool,
    pub items: Vec<ShortcutItem>,
}

/// The configuration as values.
pub struct AppConfigView {
    pub layout: LayoutMode,
    pub auto_exit_on_launch: bool,
    pub auto_exit_on_blur: bool,
    pub auto_show_on_tray_hover: bool,
    pub items: Seq<ShortcutItemView>,
}

/// The shortcuts of a vector, as values.
pub open spec fn items_view(v: Seq<ShortcutItem>) -> Seq<ShortcutItemView> {
    v.map_values(|it: ShortcutItem| it@)
}

impl View for AppConfig {
    type V = AppConfigView;

    open spec fn view(&self) -> AppConfigView {
        AppConfigView {
            layout: self.layout,
            auto_exit_on_launch: self.auto_exit_on_launch,
            auto_exit_on_blur: self.auto_exit_on_blur,
            auto_show_on_tray_hover: self.auto_show_on_tray_hover,
            items: items_view(self.items@),
        }
    }
}

/// The configuration `c` with its shortcuts replaced by `items`.
pub open spec fn with_items(c: AppConfigView, items: Seq<ShortcutItemView>) -> AppConfigView {
    AppConfigView { items, ..c }
}

/// The value a missing behaviour switch takes when a configuration is read.
pub fn default_true() -> (r: bool)
    ensures
        r,
{
    true
}

impl Default for AppConfig {
    /// Grid layout, every behaviour switch on, no shortcuts.
    fn default() -> (c: AppConfig)
        ensures
            c.layout == LayoutMode::Grid,
            c.auto_exit_on_launch,
            c.auto_exit_on_blur,
            c.auto_show_on_tray_hover,
            c.items@.len() == 0,
    {
        AppConfig {
            layout: LayoutMode::Grid,
            auto_exit_on_launch: true,
            auto_exit_on_blur: true,
            auto_show_on_tray_hover: true,
            items: Vec::new(),
        }
    }
}

/// The file extensions that a scan of the shortcuts folder picks up, in
/// lowercase.
pub open spec fn is_shortcut_extension(ext_lower: Seq<char>) -> bool {
    ||| ext_lower == "bat"@
    ||| ext_lower == "cmd"@
    ||| ext_lower == "ps1"@
    ||| ext_lower == "exe"@
    ||| ext_lower == "lnk"@
    ||| ext_lower == "url"@
}

/// A lowercase extension of a batch script, the only kind that may run
/// silently by default.
pub open spec fn is_script_extension(ext_lower: Seq<char>) -> bool {
    ext_lower == "bat"@ || ext_lower == "cmd"@
}

/// A lowercase file stem that asks for elevation.
pub open spec fn admin_marker(stem_lower: Seq<char>) -> bool {
    contains_seq(stem_lower, "admin"@)
}

/// A lowercase file stem that asks for a hidden console.
pub open spec fn silent_marker(stem_lower: Seq<char>) -> bool {
    contains_seq(stem_lower, "silent"@) || contains_seq(stem_lower, "hide"@)
}

/// The name given to a shortcut for `path`: its file stem, or `Shortcut`.
pub open spec fn stem_or_default(path: Seq<char>) -> Seq<char> {
    match file_stem_spec(path) {
        Some(s) => s,
        None => "Shortcut"@,
    }
}

/// The extension of `path`, or the empty string.
pub open spec fn ext_or_empty(path: Seq<char>) -> Seq<char> {
    match extension_spec(path) {
        Some(e) => e,
        None => Seq::<char>::empty(),
    }
}

/// The identifier of a shortcut made at `millis`: name, `-`, milliseconds.
pub open spec fn item_id(name: Seq<char>, millis: nat) -> Seq<char> {
    name + "-"@ + decimal(millis)
}

/// The shortcut made for `path` at `millis`, given the lowercase forms of
/// its extension and stem.
pub open spec fn new_item_view(
    path: Seq<char>,
    ext_lower: Seq<char>,
    stem_lower: Seq<char>,
    millis: nat,
) -> ShortcutItemView {
    ShortcutItemView {
        id: item_id(stem_or_default(path), millis),
        name: stem_or_default(path),
        path: path,
        args: None,
        custom_icon: None,
        run_as_admin: admin_marker(stem_lower),
        silent: is_script_extension(ext_lower) && silent_marker(stem_lower),
    }
}

/// The shortcut made for `path` at `millis`, case folding as `to_lowercase`.
pub open spec fn new_item_for(path: Seq<char>, millis: nat) -> ShortcutItemView {
    new_item_view(
        path,
        unicode_lowercase(ext_or_empty(path)),
        unicode_lowercase(stem_or_default(path)),
        millis,
    )
}

/// Some shortcut already names `file_path` or its resolved form `target`.
pub open spec fn has_duplicate(
    items: Seq<ShortcutItemView>,
    file_path: Seq<char>,
    target: Seq<char>,
) -> bool {
    exists|i: int|
        0 <= i < items.len() && (same_path_spec(#[trigger] items[i].path, target)
            || same_path_spec(items[i].path, file_path))
}

/// The path a shortcut is checked against: the resolved path if there is
/// one, else the path as given.
pub open spec fn target_of(file_path: Seq<char>, canonical: Option<Seq<char>>) -> Seq<char> {
    match canonical {
        Some(c) => c,
        None => file_path,
    }
}

/// No two shortcuts name the same path.
pub open spec fn distinct_paths(items: Seq<ShortcutItemView>) -> bool {
    forall|i: int, j: int|
        0 <= i < items.len() && 0 <= j < items.len() && i != j ==> !same_path_spec(
            #[trigger] items[i].path,
            #[trigger] items[j].path,
        )
}

/// The shortcuts after moving the one at `from` to position `to`; nothing
/// moves when either index is out of range or they are equal.
pub open spec fn move_spec(items: Seq<ShortcutItemView>, from: int, to: int) -> Seq<
    ShortcutItemView,
> {
    if 0 <= from < items.len() && 0 <= to < items.len() && from != to {
        items.remove(from).insert(to, items[from])
    } else {
        items
    }
}

/// The shortcuts after removing the one at `index`, if there is one.
pub open spec fn remove_spec(items: Seq<ShortcutItemView>, index: int) -> Seq<ShortcutItemView> {
    if 0 <= index < items.len() {
        items.remove(index)
    } else {
        items
    }
}

/// A file found in the shortcuts folder, with its resolved path if the file
/// system resolved one.
pub struct ScannedFile {
    pub path: String,
    pub canonical: Option<String>,
}

/// A scanned file as values.
pub open spec fn scanned_view(f: ScannedFile) -> (Seq<char>, Option<Seq<char>>) {
    (f.path@, opt_view(f.canonical))
}

/// Scanned files as values.
pub open spec fn scanned_views(files: Seq<ScannedFile>) -> Seq<(Seq<char>, Option<Seq<char>>)> {
    files.map_values(|f: ScannedFile| scanned_view(f))
}

/// The shortcuts after one scanned file, added at `millis` if its extension
/// is one the scan picks up and no shortcut names it yet.
pub open spec fn scan_step(
    items: Seq<ShortcutItemView>,
    file: (Seq<char>, Option<Seq<char>>),
    millis: nat,
) -> Seq<ShortcutItemView> {
    if is_shortcut_extension(unicode_lowercase(ext_or_empty(file.0))) && !has_duplicate(
        items,
        file.0,
        target_of(file.0, file.1),
    ) {
        items.push(new_item_for(file.0, millis))
    } else {
        items
    }
}

/// The shortcuts after scanning `files` in order, the i-th at `times[i]`.
pub open spec fn scan_spec(
    items: Seq<ShortcutItemView>,
    files: Seq<(Seq<char>, Option<Seq<char>>)>,
    times: Seq<nat>,
) -> Seq<ShortcutItemView>
    decreases files.len(),
{
    if files.len() == 0 || times.len() != files.len() {
        items
    } else {
        scan_step(
            scan_spec(items, files.drop_last(), times.drop_last()),
            files.last(),
            times.last(),
        )
    }
}

/// Whether a lowercase extension is that of a `bat` or `cmd` script.
pub fn is_script_extension_exec(ext_lower: &str) -> (r: bool)
    ensures
        r == is_script_extension(ext_lower@),
{
    str_eq(ext_lower, "bat") || str_eq(ext_lower, "cmd")
}

/// Whether a lowercase extension is one that a scan of the shortcuts folder
/// picks up: `bat`, `cmd`, `ps1`, `exe`, `lnk` or `url`.
pub fn is_shortcut_extension_exec(ext_lower: &str) -> (r: bool)
    ensures
        r == is_shortcut_extension(ext_lower@),
{
    str_eq(ext_lower, "bat") || str_eq(ext_lower, "cmd") || str_eq(ext_lower, "ps1") || str_eq(
        ext_lower,
        "exe",
    ) || str_eq(ext_lower, "lnk") || str_eq(ext_lower, "url")
}

/// Copies a string.
fn copy_str(s: &str) -> (r: String)
    ensures
        r@ == s@,
{
    let v = chars_of(s);
    crate::text::string_from_chars(&v)
}

proof fn lemma_plain_literal_names()
    ensures
        is_plain_name(seq!['s', 'h', 'o', 'r', 't', 'c', 'u', 't', 's']),
        is_plain_name(seq!['s', 'h', 'o', 'r', 't', 'c', 'u', 't', 's', '.', 'j', 's', 'o', 'n']),
{
    let a = seq!['s', 'h', 'o', 'r', 't', 'c', 'u', 't', 's'];
    let b = seq!['s', 'h', 'o', 'r', 't', 'c', 'u', 't', 's', '.', 'j', 's', 'o', 'n'];
    assert forall|i: int| 0 <= i < a.len() implies !is_sep(#[trigger] a[i]) by {
        assert(a[i] == b[i]);
    }
    assert forall|i: int| 0 <= i < b.len() implies !is_sep(#[trigger] b[i]) by {
        if i < 9 {
        } else if i == 9 {
        } else {
        }
    }
    assert(a != seq!['.']) by {
        assert(a.len() != 1);
    }
    assert(a != seq!['.', '.']) by {
        assert(a.len() != 2);
    }
    assert(b != seq!['.']) by {
        assert(b.len() != 1);
    }
    assert(b != seq!['.', '.']) by {
        assert(b.len() != 2);
    }
}

impl AppConfig {
    /// The configuration folder of the program at `exe_path`: the folder
    /// that holds the program (as `working_folder` finds it), or `.` when the
    /// path names nothing in a folder. The configuration file and the
    /// shortcuts folder joined to it lie side by side in it under their own
    /// names, unless the program sits right under a verbatim share prefix
    /// without a share name (`\\?\UNC\server\`): there the joined name
    /// itself becomes the share.
    pub fn config_dir(exe_path: &str) -> (r: String)
        ensures
            path_components(exe_path@).len() > 0 ==> {
                &&& r@ == exe_path@.take(r@.len() as int)
                &&& prefix_key(r@) == prefix_key(exe_path@)
                &&& has_root(r@) == has_root(exe_path@)
                &&& path_components(r@) == path_components(exe_path@).drop_last()
            },
            path_components(exe_path@).len() == 0 ==> r@ == "."@,
            !(is_shareless_verbatim_unc(exe_path@) && path_components(exe_path@).len() == 1) ==> {
                &&& file_name_spec(join_spec(r@, "shortcuts.json"@)) == Some("shortcuts.json"@)
                &&& file_name_spec(join_spec(r@, "shortcuts"@)) == Some("shortcuts"@)
                &&& parent_key(join_spec(r@, "shortcuts.json"@)) == parent_key(
                    join_spec(r@, "shortcuts"@),
                )
                &&& !same_path_spec(
                    join_spec(r@, "shortcuts.json"@),
                    join_spec(r@, "shortcuts"@),
                )
            },
    {
        proof {
            reveal_strlit("shortcuts.json");
            reveal_strlit("shortcuts");
            lemma_plain_literal_names();
            assert("shortcuts.json"@ =~= seq![
                's', 'h', 'o', 'r', 't', 'c', 'u', 't', 's', '.', 'j', 's', 'o', 'n'
            ]);
            assert("shortcuts"@ =~= seq!['s', 'h', 'o', 'r', 't', 'c', 'u', 't', 's']);
        }
        match working_folder(exe_path) {
            Some(d) => {
                proof {
                    if !is_shareless_verbatim_unc(exe_path@) {
                        assert(parse_prefix(join_spec(d@, "shortcuts.json"@)) == parse_prefix(d@));
                        assert(parse_prefix(join_spec(d@, "shortcuts"@)) == parse_prefix(d@));
                        law_config_files_share_folder(d@);
                    } else if path_components(exe_path@).len() != 1 {
                        let a = "shortcuts.json"@;
                        let b = "shortcuts"@;
                        assert(parse_prefix(d@) is Some);
                        assert(is_shareless_verbatim_unc(d@));
                        lemma_shareless_join(d@, a);
                        lemma_shareless_join(d@, b);
                        let ca = path_components(d@).drop_first().push(a);
                        let cb = path_components(d@).drop_first().push(b);
                        assert(ca.drop_last() =~= cb.drop_last());
                        assert(a != b) by {
                            assert(a.len() != b.len());
                        }
                        assert(ca.last() != cb.last());
                    }
                }
                d
            },
            None => {
                let d = copy_str(".");
                proof {
                    reveal_strlit(".");
                    assert(d@ =~= seq!['.']);
                    let a = d@ + seq!['\\'] + "shortcuts.json"@;
                    let b = d@ + seq!['\\'] + "shortcuts"@;
                    assert(join_spec(d@, "shortcuts.json"@) == a);
                    assert(join_spec(d@, "shortcuts"@) == b);
                    assert(a[0] == '.' && b[0] == '.');
                    law_config_files_share_folder(d@);
                }
                d
            },
        }
    }

    /// The path of the configuration file inside the configuration folder
    /// `dir`: `shortcuts.json`.
    pub fn config_path(dir: &str) -> (r: String)
        ensures
            r@ == join_spec(dir@, "shortcuts.json"@),
    {
        proof {
            reveal_strlit("shortcuts.json");
            lemma_plain_literal_names();
            assert("shortcuts.json"@ =~= seq![
                's', 'h', 'o', 'r', 't', 'c', 'u', 't', 's', '.', 'j', 's', 'o', 'n'
            ]);
        }
        join(dir, "shortcuts.json")
    }

    /// The path of the shortcuts folder inside the configuration folder `dir`:
    /// `shortcuts`.
    pub fn shortcuts_dir(dir: &str) -> (r: String)
        ensures
            r@ == join_spec(dir@, "shortcuts"@),
    {
        proof {
            reveal_strlit("shortcuts");
            lemma_plain_literal_names();
            assert("shortcuts"@ =~= seq!['s', 'h', 'o', 'r', 't', 'c', 'u', 't', 's']);
        }
        join(dir, "shortcuts")
    }

    /// Whether some shortcut names `file_path` or `target`.
    fn find_duplicate(&self, file_path: &str, target: &str) -> (r: bool)
        ensures
            r == has_duplicate(self@.items, file_path@, target@),
    {
        let mut i: usize = 0;
        while i < self.items.len()
            invariant
                i <= self.items.len(),
                forall|j: int|
                    0 <= j < i ==> !(same_path_spec(
                        #[trigger] self@.items[j].path,
                        target@,
                    ) || same_path_spec(self@.items[j].path, file_path@)),
            decreases self.items.len() - i,
        {
            let p = self.items[i].path.as_str();
            if same_path(p, target) || same_path(p, file_path) {
                assert(self@.items[i as int].path == self.items@[i as int].path@);
                return true;
            }
            i = i + 1;
        }
        false
    }

    /// Adds a shortcut for `file_path` made at `now_millis`, given the
    /// lowercase forms of the path's extension and file stem, unless a
    /// shortcut already names `file_path` or `target`. Returns whether it
    /// added one; the new shortcut goes last.
    pub fn add_item_with(
        &mut self,
        file_path: &str,
        target: &str,
        ext_lower: &str,
        stem_lower: &str,
        now_millis: u128,
    ) -> (added: bool)
        ensures
            added == !has_duplicate(old(self)@.items, file_path@, target@),
            added ==> final(self)@ == with_items(
                old(self)@,
                old(self)@.items.push(
                    new_item_view(file_path@, ext_lower@, stem_lower@, now_millis as nat),
                ),
            ),
            !added ==> final(self)@ == old(self)@,
    {
        if self.find_duplicate(file_path, target) {
            return false;
        }
        let name = match file_stem(file_path) {
            Some(s) => s,
            None => copy_str("Shortcut"),
        };
        let is_script = is_script_extension_exec(ext_lower);
        let run_as_admin = str_contains(stem_lower, "admin");
        let silent = str_contains(stem_lower, "silent") || str_contains(stem_lower, "hide");
        let mut id = copy_str(name.as_str());
        push_char(&mut id, '-');
        let digits = u128_to_decimal(now_millis);
        let dv = chars_of(digits.as_str());
        let mut k: usize = 0;
        let ghost base = id@;
        while k < dv.len()
            invariant
                k <= dv.len(),
                id@ == base + dv@.take(k as int),
            decreases dv.len() - k,
        {
            push_char(&mut id, dv[k]);
            assert(base + dv@.take(k + 1) =~= (base + dv@.take(k as int)).push(dv@[k as int]));
            k = k + 1;
        }
        proof {
            assert(dv@.take(dv.len() as int) =~= dv@);
            reveal_strlit("-");
            assert(base =~= name@ + "-"@);
        }
        let item = ShortcutItem {
            id,
            name,
            path: copy_str(file_path),
            args: None,
            custom_icon: None,
            run_as_admin,
            silent: if is_script {
                silent
            } else {
                false
            },
        };
        let ghost old_items = self.items@;
        self.items.push(item);
        proof {
            assert(items_view(self.items@) =~= items_view(old_items).push(item@));
        }
        true
    }

    /// Adds the shortcut for `file_path` made at `now_millis`, if none names
    /// the path yet; `canonical` is the resolved form of the path, if the
    /// file system resolved one.
    fn add_resolved(&mut self, file_path: &str, canonical: &Option<String>, now_millis: u128) -> (added: bool)
        ensures
            added == !has_duplicate(
                old(self)@.items,
                file_path@,
                target_of(file_path@, opt_view(*canonical)),
            ),
            added ==> final(self)@ == with_items(
                old(self)@,
                old(self)@.items.push(new_item_for(file_path@, now_millis as nat)),
            ),
            !added ==> final(self)@ == old(self)@,
    {
        let target: &str = match canonical {
            Some(c) => c.as_str(),
            None => file_path,
        };
        let stem = match file_stem(file_path) {
            Some(s) => s,
            None => copy_str("Shortcut"),
        };
        let ext = match extension(file_path) {
            Some(e) => e,
            None => String::new(),
        };
        let ext_lower = to_lowercase(ext.as_str());
        let stem_lower = to_lowercase(stem.as_str());
        self.add_item_with(file_path, target, ext_lower.as_str(), stem_lower.as_str(), now_millis)
    }

    /// Adds a shortcut for `file_path` unless a shortcut already names it or
    /// its resolved form `canonical` (when the file system resolved one).
    /// Returns whether it added one. The new shortcut goes last; it is named
    /// after the file stem (or `Shortcut`), has an identifier made of that
    /// name and the current time in milliseconds, asks for elevation when
    /// the lowercase stem contains `admin`, and runs silently when the file
    /// is a `bat` or `cmd` script whose lowercase stem contains `silent` or
    /// `hide`.
    pub fn add_item_from_path(&mut self, file_path: &str, canonical: Option<String>) -> (added:
        bool)
        ensures
            added == !has_duplicate(
                old(self)@.items,
                file_path@,
                target_of(file_path@, opt_view(canonical)),
            ),
            added ==> exists|t: nat|
                final(self)@ == with_items(
                    old(self)@,
                    old(self)@.items.push(#[trigger] new_item_for(file_path@, t)),
                ),
            !added ==> final(self)@ == old(self)@,
    {
        let now = unix_millis_now();
        let added = self.add_resolved(file_path, &canonical, now);
        proof {
            if added {
                let t = now as nat;
                assert(final(self)@ == with_items(
                    old(self)@,
                    old(self)@.items.push(new_item_for(file_path@, t)),
                ));
            }
        }
        added
    }

    /// Adds, in order, a shortcut for each scanned file whose lowercase
    /// extension is `bat`, `cmd`, `ps1`, `exe`, `lnk` or `url`, as
    /// `add_item_from_path` does, each with the time at which it was added.
    pub fn scan_shortcuts_folder(&mut self, files: &Vec<ScannedFile>)
        ensures
            exists|times: Seq<nat>|
                times.len() == files@.len() && final(self)@ == with_items(
                    old(self)@,
                    #[trigger] scan_spec(
                        old(self)@.items,
                        scanned_views(files@),
                        times,
                    ),
                ),
    {
        let ghost fviews = scanned_views(files@);
        let ghost mut times: Seq<nat> = Seq::empty();
        let mut i: usize = 0;
        while i < files.len()
            invariant
                i <= files.len(),
                fviews == scanned_views(files@),
                times.len() == i,
                self@ == with_items(
                    old(self)@,
                    scan_spec(old(self)@.items, fviews.take(i as int), times),
                ),
            decreases files.len() - i,
        {
            let f = &files[i];
            let ext = match extension(f.path.as_str()) {
                Some(e) => e,
                None => String::new(),
            };
            let ext_lower = to_lowercase(ext.as_str());
            let now = unix_millis_now();
            if is_shortcut_extension_exec(ext_lower.as_str()) {
                self.add_resolved(f.path.as_str(), &f.canonical, now);
            }
            proof {
                let fs = fviews.take(i + 1);
                let ts = times.push(now as nat);
                assert(fs.drop_last() =~= fviews.take(i as int));
                assert(ts.drop_last() =~= times);
                assert(fs.last() == scanned_view(files@[i as int]));
                times = ts;
            }
            i = i + 1;
        }
        proof {
            assert(fviews.take(files.len() as int) =~= fviews);
        }
    }

    /// Removes the shortcut at `index`; does nothing when there is none.
    pub fn remove_item(&mut self, index: usize)
        ensures
            final(self)@ == with_items(old(self)@, remove_spec(old(self)@.items, index as int)),
    {
        if index < self.items.len() {
            let ghost old_items = self.items@;
            self.items.remove(index);
            proof {
                assert(items_view(self.items@) =~= items_view(old_items).remove(index as int));
            }
        } else {
            assert(with_items(old(self)@, old(self)@.items) == old(self)@);
        }
    }

    /// Moves the shortcut at `from` to position `to`, shifting the ones in
    /// between; does nothing when either index is out of range or they are
    /// equal.
    pub fn move_item(&mut self, from: usize, to: usize)
        ensures
            final(self)@ == with_items(
                old(self)@,
                move_spec(old(self)@.items, from as int, to as int),
            ),
    {
        if from < self.items.len() && to < self.items.len() && from != to {
            let ghost old_items = self.items@;
            let item = self.items.remove(from);
            self.items.insert(to, item);
            proof {
                assert(items_view(self.items@) =~= items_view(old_items).remove(from as int).insert(
                    to as int,
                    items_view(old_items)[from as int],
                ));
            }
        } else {
            assert(with_items(old(self)@, old(self)@.items) == old(self)@);
        }
    }
}


proof fn lemma_distinct_remove(items: Seq<ShortcutItemView>, index: int)
    requires
        distinct_paths(items),
        0 <= index < items.len(),
    ensures
        distinct_paths(items.remove(index)),
        forall|k: int|
            0 <= k < items.len() - 1 ==> !same_path_spec(
                #[trigger] items.remove(index)[k].path,
                items[index].path,
            ),
{
    let r = items.remove(index);
    assert forall|i: int, j: int|
        0 <= i < r.len() && 0 <= j < r.len() && i != j implies !same_path_spec(
        #[trigger] r[i].path,
        #[trigger] r[j].path,
    ) by {
        let a = if i < index { i } else { i + 1 };
        let b = if j < index { j } else { j + 1 };
        assert(r[i] == items[a]);
        assert(r[j] == items[b]);
    }
    assert forall|k: int| 0 <= k < items.len() - 1 implies !same_path_spec(
        #[trigger] r[k].path,
        items[index].path,
    ) by {
        let a = if k < index { k } else { k + 1 };
        assert(r[k] == items[a]);
    }
}

proof fn lemma_distinct_insert(items: Seq<ShortcutItemView>, at: int, x: ShortcutItemView)
    requires
        distinct_paths(items),
        0 <= at <= items.len(),
        forall|k: int| 0 <= k < items.len() ==> !same_path_spec(#[trigger] items[k].path, x.path),
    ensures
        distinct_paths(items.insert(at, x)),
{
    let r = items.insert(at, x);
    assert forall|i: int, j: int|
        0 <= i < r.len() && 0 <= j < r.len() && i != j implies !same_path_spec(
        #[trigger] r[i].path,
        #[trigger] r[j].path,
    ) by {
        if i != at && j != at {
            let a = if i < at { i } else { i - 1 };
            let b = if j < at { j } else { j - 1 };
            assert(r[i] == items[a]);
            assert(r[j] == items[b]);
        } else if i == at {
            let b = if j < at { j } else { j - 1 };
            assert(r[j] == items[b]);
        } else {
            let a = if i < at { i } else { i - 1 };
            assert(r[i] == items[a]);
        }
    }
}

/// Moving a shortcut neither adds nor drops one: the shortcuts after a move
/// are those before it, counted with multiplicity.
pub proof fn law_move_keeps_shortcuts(items: Seq<ShortcutItemView>, from: int, to: int)
    ensures
        move_spec(items, from, to).to_multiset() == items.to_multiset(),
        move_spec(items, from, to).len() == items.len(),
{
    broadcast use vstd::seq_lib::group_to_multiset_ensures;
    broadcast use vstd::multiset::group_multiset_axioms;

    if 0 <= from < items.len() && 0 <= to < items.len() && from != to {
        let x = items[from];
        vstd::seq_lib::to_multiset_remove(items, from);
        vstd::seq_lib::to_multiset_insert(items.remove(from), to, x);
        assert(items.to_multiset().remove(x).insert(x) =~= items.to_multiset());
    }
}

/// Moving a shortcut from `from` to `to` and then from `to` back to `from`
/// restores the order of the shortcuts.
pub proof fn law_move_back_restores(items: Seq<ShortcutItemView>, from: int, to: int)
    requires
        0 <= from < items.len(),
        0 <= to < items.len(),
    ensures
        move_spec(move_spec(items, from, to), to, from) == items,
{
    if from != to {
        let x = items[from];
        let r = items.remove(from).insert(to, x);
        assert(r[to] == x);
        assert(r.remove(to) =~= items.remove(from));
        assert(items.remove(from).insert(from, x) =~= items);
    }
}

/// Removing a shortcut keeps the other shortcuts in their order and leaves
/// the list one shorter; an index out of range changes nothing.
pub proof fn law_remove_keeps_order(items: Seq<ShortcutItemView>, index: int)
    ensures
        0 <= index < items.len() ==> remove_spec(items, index).len() == items.len() - 1
            && (forall|k: int|
            0 <= k < index ==> #[trigger] remove_spec(items, index)[k] == items[k]) && (forall|
            k: int,
        |
            index <= k < items.len() - 1 ==> #[trigger] remove_spec(items, index)[k] == items[k
                + 1]),
        !(0 <= index < items.len()) ==> remove_spec(items, index) == items,
{
}

/// A shortcut added for a path makes every later attempt to add that path
/// again a duplicate, whatever it resolves to.
pub proof fn law_added_path_is_taken(
    items: Seq<ShortcutItemView>,
    file_path: Seq<char>,
    ext_lower: Seq<char>,
    stem_lower: Seq<char>,
    millis: nat,
    target: Seq<char>,
)
    ensures
        has_duplicate(
            items.push(new_item_view(file_path, ext_lower, stem_lower, millis)),
            file_path,
            target,
        ),
{
    let r = items.push(new_item_view(file_path, ext_lower, stem_lower, millis));
    assert(r[items.len() as int].path == file_path);
    assert(same_path_spec(r[items.len() as int].path, file_path));
}

/// Only `bat` and `cmd` scripts are made to run silently.
pub proof fn law_silent_only_for_scripts(
    path: Seq<char>,
    ext_lower: Seq<char>,
    stem_lower: Seq<char>,
    millis: nat,
)
    ensures
        new_item_view(path, ext_lower, stem_lower, millis).silent ==> is_script_extension(
            ext_lower,
        ),
{
}

/// Adding a shortcut, which happens only when no shortcut names the path,
/// keeps the paths of the shortcuts distinct.
pub proof fn law_add_keeps_paths_distinct(
    items: Seq<ShortcutItemView>,
    file_path: Seq<char>,
    target: Seq<char>,
    ext_lower: Seq<char>,
    stem_lower: Seq<char>,
    millis: nat,
)
    requires
        distinct_paths(items),
        !has_duplicate(items, file_path, target),
    ensures
        distinct_paths(items.push(new_item_view(file_path, ext_lower, stem_lower, millis))),
{
    let x = new_item_view(file_path, ext_lower, stem_lower, millis);
    assert forall|k: int| 0 <= k < items.len() implies !same_path_spec(
        #[trigger] items[k].path,
        x.path,
    ) by {
        if same_path_spec(items[k].path, x.path) {
            assert(same_path_spec(items[k].path, file_path));
        }
    }
    lemma_distinct_insert(items, items.len() as int, x);
    assert(items.insert(items.len() as int, x) =~= items.push(x));
}

/// Removing a shortcut keeps the paths of the shortcuts distinct.
pub proof fn law_remove_keeps_paths_distinct(items: Seq<ShortcutItemView>, index: int)
    requires
        distinct_paths(items),
    ensures
        distinct_paths(remove_spec(items, index)),
{
    if 0 <= index < items.len() {
        lemma_distinct_remove(items, index);
    }
}

/// Moving a shortcut keeps the paths of the shortcuts distinct.
pub proof fn law_move_keeps_paths_distinct(items: Seq<ShortcutItemView>, from: int, to: int)
    requires
        distinct_paths(items),
    ensures
        distinct_paths(move_spec(items, from, to)),
{
    if 0 <= from < items.len() && 0 <= to < items.len() && from != to {
        lemma_distinct_remove(items, from);
        lemma_distinct_insert(items.remove(from), to, items[from]);
    }
}

/// Scanning the shortcuts folder keeps the paths of the shortcuts distinct.
pub proof fn law_scan_keeps_paths_distinct(
    items: Seq<ShortcutItemView>,
    files: Seq<(Seq<char>, Option<Seq<char>>)>,
    times: Seq<nat>,
)
    requires
        distinct_paths(items),
    ensures
        distinct_paths(scan_spec(items, files, times)),
    decreases files.len(),
{
    if files.len() > 0 && times.len() == files.len() {
        law_scan_keeps_paths_distinct(items, files.drop_last(), times.drop_last());
        let before = scan_spec(items, files.drop_last(), times.drop_last());
        let f = files.last();
        if is_shortcut_extension(unicode_lowercase(ext_or_empty(f.0))) && !has_duplicate(
            before,
            f.0,
            target_of(f.0, f.1),
        ) {
            law_add_keeps_paths_distinct(
                before,
                f.0,
                target_of(f.0, f.1),
                unicode_lowercase(ext_or_empty(f.0)),
                unicode_lowercase(stem_or_default(f.0)),
                times.last(),
            );
        }
    }
}

/// A scan keeps the shortcuts there were, in their order, and adds after
/// them only shortcuts for files whose lowercase extension it picks up.
pub proof fn law_scan_adds_only_shortcut_files(
    items: Seq<ShortcutItemView>,
    files: Seq<(Seq<char>, Option<Seq<char>>)>,
    times: Seq<nat>,
)
    ensures
        scan_spec(items, files, times).len() >= items.len(),
        scan_spec(items, files, times).subrange(0, items.len() as int) == items,
        forall|k: int|
            items.len() <= k < scan_spec(items, files, times).len() ==> is_shortcut_extension(
                unicode_lowercase(ext_or_empty(#[trigger] scan_spec(items, files, times)[k].path)),
            ),
    decreases files.len(),
{
    if files.len() > 0 && times.len() == files.len() {
        law_scan_adds_only_shortcut_files(items, files.drop_last(), times.drop_last());
        let before = scan_spec(items, files.drop_last(), times.drop_last());
        let after = scan_spec(items, files, times);
        assert(after.subrange(0, items.len() as int) =~= before.subrange(0, items.len() as int));
        assert forall|k: int| items.len() <= k < after.len() implies is_shortcut_extension(
            unicode_lowercase(ext_or_empty(#[trigger] after[k].path)),
        ) by {
            if k < before.len() {
                assert(after[k] == before[k]);
            }
        }
    } else {
        assert(items.subrange(0, items.len() as int) =~= items);
    }
}


/// A new shortcut asks for elevation exactly when `admin` occurs somewhere
/// in the lowercase file stem, and runs silently exactly when the file is a
/// `bat` or `cmd` script and `silent` or `hide` occurs somewhere in that
/// stem.
pub proof fn law_new_item_flags(
    path: Seq<char>,
    ext_lower: Seq<char>,
    stem_lower: Seq<char>,
    millis: nat,
)
    ensures
        new_item_view(path, ext_lower, stem_lower, millis).run_as_admin <==> exists|j: int|
            0 <= j && j + 5 <= stem_lower.len() && #[trigger] stem_lower.subrange(j, j + 5) == seq![
                'a',
                'd',
                'm',
                'i',
                'n',
            ],
        new_item_view(path, ext_lower, stem_lower, millis).silent <==> ((ext_lower == seq![
            'b',
            'a',
            't',
        ] || ext_lower == seq!['c', 'm', 'd']) && ((exists|j: int|
            0 <= j && j + 6 <= stem_lower.len() && #[trigger] stem_lower.subrange(j, j + 6) == seq![
                's',
                'i',
                'l',
                'e',
                'n',
                't',
            ]) || (exists|j: int|
            0 <= j && j + 4 <= stem_lower.len() && #[trigger] stem_lower.subrange(j, j + 4) == seq![
                'h',
                'i',
                'd',
                'e',
            ]))),
{
    reveal_strlit("admin");
    reveal_strlit("silent");
    reveal_strlit("hide");
    reveal_strlit("bat");
    reveal_strlit("cmd");
    assert("admin"@ =~= seq!['a', 'd', 'm', 'i', 'n']);
    assert("silent"@ =~= seq!['s', 'i', 'l', 'e', 'n', 't']);
    assert("hide"@ =~= seq!['h', 'i', 'd', 'e']);
    assert("bat"@ =~= seq!['b', 'a', 't']);
    assert("cmd"@ =~= seq!['c', 'm', 'd']);
}

/// Whether a lowercase extension is one of `bat`, `cmd`, `ps1`, `exe`,
/// `lnk` and `url`, written out letter by letter.
proof fn lemma_listed_extensions(e: Seq<char>)
    ensures
        is_shortcut_extension(e) <==> (e == seq!['b', 'a', 't'] || e == seq!['c', 'm', 'd'] || e
            == seq!['p', 's', '1'] || e == seq!['e', 'x', 'e'] || e == seq!['l', 'n', 'k'] || e
            == seq!['u', 'r', 'l']),
{
    reveal_strlit("bat");
    reveal_strlit("cmd");
    reveal_strlit("ps1");
    reveal_strlit("exe");
    reveal_strlit("lnk");
    reveal_strlit("url");
    assert("bat"@ =~= seq!['b', 'a', 't']);
    assert("cmd"@ =~= seq!['c', 'm', 'd']);
    assert("ps1"@ =~= seq!['p', 's', '1']);
    assert("exe"@ =~= seq!['e', 'x', 'e']);
    assert("lnk"@ =~= seq!['l', 'n', 'k']);
    assert("url"@ =~= seq!['u', 'r', 'l']);
}

/// Scanning one file adds a shortcut for it, last, exactly when its
/// lowercase extension is `bat`, `cmd`, `ps1`, `exe`, `lnk` or `url` and no
/// shortcut names the file or its resolved path; otherwise the shortcuts
/// stay as they are.
pub proof fn law_scan_one_file(
    items: Seq<ShortcutItemView>,
    file: (Seq<char>, Option<Seq<char>>),
    millis: nat,
)
    ensures
        ({
            let e = unicode_lowercase(ext_or_empty(file.0));
            let listed = e == seq!['b', 'a', 't'] || e == seq!['c', 'm', 'd'] || e == seq![
                'p',
                's',
                '1',
            ] || e == seq!['e', 'x', 'e'] || e == seq!['l', 'n', 'k'] || e == seq!['u', 'r', 'l'];
            scan_spec(items, seq![file], seq![millis]) == if listed && !has_duplicate(
                items,
                file.0,
                target_of(file.0, file.1),
            ) {
                items.push(new_item_for(file.0, millis))
            } else {
                items
            }
        }),
{
    lemma_listed_extensions(unicode_lowercase(ext_or_empty(file.0)));
    assert(seq![file].drop_last() =~= Seq::<(Seq<char>, Option<Seq<char>>)>::empty());
    assert(seq![millis].drop_last() =~= Seq::<nat>::empty());
    assert(scan_spec(items, Seq::<(Seq<char>, Option<Seq<char>>)>::empty(), Seq::<nat>::empty())
        == items);
    assert(seq![file].last() == file);
    assert(seq![millis].last() == millis);
    assert(scan_spec(items, seq![file], seq![millis]) == scan_step(items, file, millis));
}

/// Every shortcut a scan adds is for a file whose lowercase extension is
/// `bat`, `cmd`, `ps1`, `exe`, `lnk` or `url`.
pub proof fn law_scan_adds_only_listed_extensions(
    items: Seq<ShortcutItemView>,
    files: Seq<(Seq<char>, Option<Seq<char>>)>,
    times: Seq<nat>,
)
    ensures
        forall|k: int|
            items.len() <= k < scan_spec(items, files, times).len() ==> {
                let e = unicode_lowercase(
                    ext_or_empty(#[trigger] scan_spec(items, files, times)[k].path),
                );
                e == seq!['b', 'a', 't'] || e == seq!['c', 'm', 'd'] || e == seq!['p', 's', '1']
                    || e == seq!['e', 'x', 'e'] || e == seq!['l', 'n', 'k'] || e == seq![
                    'u',
                    'r',
                    'l',
                ]
            },
{
    law_scan_adds_only_shortcut_files(items, files, times);
    let r = scan_spec(items, files, times);
    assert forall|k: int| items.len() <= k < r.len() implies {
        let e = unicode_lowercase(ext_or_empty(#[trigger] r[k].path));
        e == seq!['b', 'a', 't'] || e == seq!['c', 'm', 'd'] || e == seq!['p', 's', '1'] || e
            == seq!['e', 'x', 'e'] || e == seq!['l', 'n', 'k'] || e == seq!['u', 'r', 'l']
    } by {
        lemma_listed_extensions(unicode_lowercase(ext_or_empty(r[k].path)));
    }
}

/// The configuration file and the shortcuts folder lie in the same folder,
/// under the names `shortcuts.json` and `shortcuts`, and are different
/// paths. This holds wherever joining does not turn the end of the folder
/// into part of a prefix (as for a folder `\\server`).
pub proof fn law_config_files_share_folder(dir: Seq<char>)
    requires
        parse_prefix(join_spec(dir, "shortcuts.json"@)) == parse_prefix(dir),
        parse_prefix(join_spec(dir, "shortcuts"@)) == parse_prefix(dir),
    ensures
        file_name_spec(join_spec(dir, "shortcuts.json"@)) == Some("shortcuts.json"@),
        file_name_spec(join_spec(dir, "shortcuts"@)) == Some("shortcuts"@),
        parent_key(join_spec(dir, "shortcuts.json"@)) == parent_key(join_spec(dir, "shortcuts"@)),
        !same_path_spec(join_spec(dir, "shortcuts.json"@), join_spec(dir, "shortcuts"@)),
{
    reveal_strlit("shortcuts.json");
    reveal_strlit("shortcuts");
    lemma_plain_literal_names();
    assert("shortcuts.json"@ =~= seq![
        's', 'h', 'o', 'r', 't', 'c', 'u', 't', 's', '.', 'j', 's', 'o', 'n'
    ]);
    assert("shortcuts"@ =~= seq!['s', 'h', 'o', 'r', 't', 'c', 'u', 't', 's']);
    assert("shortcuts.json"@ != "shortcuts"@) by {
        assert("shortcuts.json"@.len() != "shortcuts"@.len());
    }
    law_joined_names_share_folder(dir, "shortcuts.json"@, "shortcuts"@);
}


proof fn lemma_duplicate_push(
    items: Seq<ShortcutItemView>,
    x: ShortcutItemView,
    p: Seq<char>,
    t: Seq<char>,
)
    requires
        has_duplicate(items, p, t),
    ensures
        has_duplicate(items.push(x), p, t),
{
    let i = choose|i: int|
        0 <= i < items.len() && (same_path_spec(#[trigger] items[i].path, t) || same_path_spec(
            items[i].path,
            p,
        ));
    assert(items.push(x)[i] == items[i]);
}

/// Every file of `files` that a scan picks up is already named by a
/// shortcut of `items`.
pub open spec fn scan_covered(
    items: Seq<ShortcutItemView>,
    files: Seq<(Seq<char>, Option<Seq<char>>)>,
) -> bool {
    forall|k: int|
        0 <= k < files.len() && is_shortcut_extension(
            unicode_lowercase(ext_or_empty(#[trigger] files[k].0)),
        ) ==> has_duplicate(items, files[k].0, target_of(files[k].0, files[k].1))
}

proof fn lemma_scan_covers(
    items: Seq<ShortcutItemView>,
    files: Seq<(Seq<char>, Option<Seq<char>>)>,
    times: Seq<nat>,
)
    requires
        times.len() == files.len(),
    ensures
        scan_covered(scan_spec(items, files, times), files),
    decreases files.len(),
{
    if files.len() > 0 {
        let fd = files.drop_last();
        lemma_scan_covers(items, fd, times.drop_last());
        let before = scan_spec(items, fd, times.drop_last());
        let f = files.last();
        let after = scan_spec(items, files, times);
        assert(after == scan_step(before, f, times.last()));
        assert forall|k: int|
            0 <= k < files.len() && is_shortcut_extension(
                unicode_lowercase(ext_or_empty(#[trigger] files[k].0)),
            ) implies has_duplicate(after, files[k].0, target_of(files[k].0, files[k].1)) by {
            if k < fd.len() {
                assert(fd[k] == files[k]);
                assert(has_duplicate(before, fd[k].0, target_of(fd[k].0, fd[k].1)));
                if after != before {
                    lemma_duplicate_push(
                        before,
                        new_item_for(f.0, times.last()),
                        files[k].0,
                        target_of(files[k].0, files[k].1),
                    );
                }
            } else {
                assert(files[k] == f);
                if !has_duplicate(before, f.0, target_of(f.0, f.1)) {
                    let n = before.len() as int;
                    assert(after[n] == new_item_for(f.0, times.last()));
                    assert(same_path_spec(after[n].path, f.0));
                }
            }
        }
    }
}

proof fn lemma_scan_covered_unchanged(
    items: Seq<ShortcutItemView>,
    files: Seq<(Seq<char>, Option<Seq<char>>)>,
    times: Seq<nat>,
)
    requires
        scan_covered(items, files),
    ensures
        scan_spec(items, files, times) == items,
    decreases files.len(),
{
    if files.len() > 0 && times.len() == files.len() {
        let fd = files.drop_last();
        assert forall|k: int|
            0 <= k < fd.len() && is_shortcut_extension(
                unicode_lowercase(ext_or_empty(#[trigger] fd[k].0)),
            ) implies has_duplicate(items, fd[k].0, target_of(fd[k].0, fd[k].1)) by {
            assert(fd[k] == files[k]);
        }
        lemma_scan_covered_unchanged(items, fd, times.drop_last());
        let f = files.last();
        assert(files[files.len() - 1] == f);
    }
}

/// Scanning the same files a second time adds nothing: every file the
/// first scan picked up is then named by a shortcut.
pub proof fn law_second_scan_adds_nothing(
    items: Seq<ShortcutItemView>,
    files: Seq<(Seq<char>, Option<Seq<char>>)>,
    first_times: Seq<nat>,
    second_times: Seq<nat>,
)
    requires
        first_times.len() == files.len(),
    ensures
        scan_spec(scan_spec(items, files, first_times), files, second_times) == scan_spec(
            items,
            files,
            first_times,
        ),
{
    lemma_scan_covers(items, files, first_times);
    lemma_scan_covered_unchanged(scan_spec(items, files, first_times), files, second_times);
}

} // verus!
