//! How a shortcut is started: elevated through the shell, as a hidden
//! script run by the command interpreter, or opened through the shell.
use vstd::prelude::*;
use crate::config::{
    ext_or_empty, is_script_extension, is_script_extension_exec, ShortcutItem, ShortcutItemView,
};
use crate::paths::extension;
use crate::text::{
    split_whitespace, split_whitespace_spec, strings_view, to_lowercase,
    unicode_lowercase,
};

verus! {

/// The way a shortcut is started.
pub enum LaunchPlan {
    /// Start the file through the shell with the `runas` verb, passing the
    /// shortcut's arguments whole; `hidden` asks for no visible window.
    Elevated { hidden: bool },
    /// Run the script as `cmd.exe /c <path> <args...>` in the script's folder,
    /// with no console window; `args` are the words of the shortcut's
    /// arguments.
    SilentScript { args: Vec<String> },
    /// Open the file through the shell with the `open` verb, passing the
    /// shortcut's arguments whole.
    Open,
}

/// The words of optional arguments (none when there are no arguments).
pub open spec fn arg_words(args: Option<Seq<char>>) -> Seq<Seq<char>> {
    match args {
        Some(a) => split_whitespace_spec(a),
        None => Seq::<Seq<char>>::empty(),
    }
}

/// `plan` is the way to start `item`, whose lowercase extension is
/// `ext_lower`: elevated when the shortcut asks for it (hidden when it is
/// silent), else as a hidden script when it is a silent `bat` or `cmd`
/// script, else opened.
pub open spec fn plan_matches(plan: LaunchPlan, item: ShortcutItemView, ext_lower: Seq<char>) -> bool {
    if item.run_as_admin {
        plan matches LaunchPlan::Elevated { hidden } && hidden == item.silent
    } else if item.silent && is_script_extension(ext_lower) {
        plan matches LaunchPlan::SilentScript { args } && strings_view(args@) == arg_words(
            item.args,
        )
    } else {
        plan is Open
    }
}

/// How the plan follows the shortcut's flags: a shortcut that asks for
/// elevation is started elevated, its window hidden exactly when it is
/// silent (a non-silent elevated start shows its window); one that does not
/// ask for elevation is never started elevated; and only a silent `bat` or
/// `cmd` script is run as a hidden script.
pub proof fn law_plan_follows_flags(plan: LaunchPlan, item: ShortcutItemView, ext_lower: Seq<char>)
    requires
        plan_matches(plan, item, ext_lower),
    ensures
        item.run_as_admin ==> (plan matches LaunchPlan::Elevated { hidden } && hidden
            == item.silent),
        item.run_as_admin && !item.silent ==> plan == (LaunchPlan::Elevated { hidden: false }),
        !item.run_as_admin ==> !(plan is Elevated),
        plan is SilentScript ==> item.silent && !item.run_as_admin && (ext_lower == seq![
            'b',
            'a',
            't',
        ] || ext_lower == seq!['c', 'm', 'd']),
        !item.run_as_admin && !item.silent ==> plan is Open,
{
    reveal_strlit("bat");
    reveal_strlit("cmd");
    assert("bat"@ =~= seq!['b', 'a', 't']);
    assert("cmd"@ =~= seq!['c', 'm', 'd']);
}

/// The way to start `item`, given the lowercase form of its extension.
pub fn plan_launch_with(item: &ShortcutItem, ext_lower: &str) -> (plan: LaunchPlan)
    ensures
        plan_matches(plan, item@, ext_lower@),
{
    if item.run_as_admin {
        return LaunchPlan::Elevated { hidden: item.silent };
    }
    let is_script = is_script_extension_exec(ext_lower);
    if item.silent && is_script {
        let args = match &item.args {
            Some(a) => split_whitespace(a.as_str()),
            None => Vec::new(),
        };
        proof {
            if item.args is None {
                assert(strings_view(args@) =~= Seq::<Seq<char>>::empty());
            }
        }
        return LaunchPlan::SilentScript { args };
    }
    LaunchPlan::Open
}

/// The way to start `item`, its extension case folded as `to_lowercase`
/// does.
pub fn plan_launch(item: &ShortcutItem) -> (plan: LaunchPlan)
    ensures
        plan_matches(plan, item@, unicode_lowercase(ext_or_empty(item.path@))),
{
    let ext = match extension(item.path.as_str()) {
        Some(e) => e,
        None => String::new(),
    };
    let ext_lower = to_lowercase(ext.as_str());
    plan_launch_with(item, ext_lower.as_str())
}

} // verus!
