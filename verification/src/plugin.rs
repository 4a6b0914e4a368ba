//! Analyzer plugins: where they are looked for and how they are run.
use vstd::prelude::*;

verus! {

/// A plugin's manifest (`plugin.json`).
pub struct PluginManifest {
    pub id: String,
    pub name: String,
    pub command: String,
    pub args: Vec<String>,
}

/// The directory searched for plugins: `plugins` where it exists, else `../plugins`.
pub open spec fn plugin_root_name(local_exists: bool) -> Seq<char> {
    if local_exists {
        "plugins"@
    } else {
        "../plugins"@
    }
}

/// The directory searched for plugins.
pub fn plugin_root(local_exists: bool) -> (root: &'static str)
    ensures
        root@ == plugin_root_name(local_exists),
{
    if local_exists {
        "plugins"
    } else {
        "../plugins"
    }
}

impl PluginManifest {
    /// The arguments the plugin's command is run with: the manifest's
    /// arguments, then the path of the CSV file to analyze.
    pub fn invocation_args(&self, csv_path: &String) -> (args: Vec<String>)
        ensures
            args.deep_view() == self.args.deep_view().push(csv_path@),
    {
        let mut args: Vec<String> = Vec::new();
        let mut i: usize = 0;
        while i < self.args.len()
            invariant
                i <= self.args@.len(),
                args.deep_view() =~= self.args.deep_view().take(i as int),
            decreases self.args@.len() - i,
        {
            let ghost before = args.deep_view();
            args.push(self.args[i].clone());
            assert(args.deep_view() =~= before.push(self.args.deep_view()[i as int]));
            i = i + 1;
        }
        assert(self.args.deep_view().take(self.args@.len() as int) =~= self.args.deep_view());
        let ghost before = args.deep_view();
        args.push(csv_path.clone());
        assert(args.deep_view() =~= before.push(csv_path@));
        assert(args.deep_view() =~= self.args.deep_view().push(csv_path@));
        args
    }
}

/// The message for a plugin that exited with failure, given what it wrote
/// to its error output.
pub fn plugin_failure_message(stderr: &str) -> (message: String)
    ensures
        message@ == "プラグイン内部エラー: "@ + stderr@,
{
    let mut message = "プラグイン内部エラー: ".to_owned();
    message.append(stderr);
    message
}

} // verus!
