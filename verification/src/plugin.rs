//! Plugins that level out the differences between services: which there are, and which may be used.

use crate::model::view_opt;
use crate::text_map::{ascending, lemma_rank, lemma_with_entry, lookup, rank, with_entry, TextMap};
use std::path::PathBuf;
use vstd::prelude::*;

verus! {

/// A path of the file system, opaque here.
#[verifier::external_type_specification]
#[verifier::external_body]
pub struct ExPathBuf(PathBuf);

/// The version of the interface that plugins must have.
pub const SUPPORTED_ABI_VERSION: u32 = 1;

/// The extension of the files that hold plugins.
pub const PLUGIN_EXTENSION: &'static str = "fcplug";

/// What a plugin is for.
#[derive(Clone, Copy, Debug, PartialEq, Eq, Structural)]
pub enum PluginKind {
    LLM,
    Image,
    TTS,
}

/// What a plugin says of itself.
#[derive(Debug)]
pub struct PluginInfo {
    pub id: String,
    pub version: String,
    pub author: String,
    pub abi_version: u32,
    pub name: String,
    pub description: String,
    pub kind: PluginKind,
}

/// What a plugin says of itself, as the model has it.
#[verifier::ext_equal]
pub struct InfoView {
    pub id: Seq<char>,
    pub version: Seq<char>,
    pub author: Seq<char>,
    pub abi_version: u32,
    pub name: Seq<char>,
    pub description: Seq<char>,
    pub kind: PluginKind,
}

impl View for PluginInfo {
    type V = InfoView;

    open spec fn view(&self) -> InfoView {
        InfoView {
            id: self.id@,
            version: self.version@,
            author: self.author@,
            abi_version: self.abi_version,
            name: self.name@,
            description: self.description@,
            kind: self.kind,
        }
    }
}

/// A plugin that there is, and where it is.
#[derive(Debug)]
pub struct PluginMeta {
    pub id: String,
    pub name: String,
    pub description: String,
    pub author: String,
    pub version: String,
    pub kind: PluginKind,
    pub fcplug_path: PathBuf,
}

/// What is known of a plugin.
#[verifier::ext_equal]
pub struct MetaView {
    pub id: Seq<char>,
    pub name: Seq<char>,
    pub description: Seq<char>,
    pub author: Seq<char>,
    pub version: Seq<char>,
    pub kind: PluginKind,
    pub fcplug_path: PathBuf,
}

impl View for PluginMeta {
    type V = MetaView;

    open spec fn view(&self) -> MetaView {
        MetaView {
            id: self.id@,
            name: self.name@,
            description: self.description@,
            author: self.author@,
            version: self.version@,
            kind: self.kind,
            fcplug_path: self.fcplug_path,
        }
    }
}

impl InfoView {
    /// The plugin at a path.
    pub open spec fn at(self, fcplug_path: PathBuf) -> MetaView {
        MetaView {
            id: self.id,
            name: self.name,
            description: self.description,
            author: self.author,
            version: self.version,
            kind: self.kind,
            fcplug_path,
        }
    }
}

/// Finds plugins.
#[derive(Debug)]
pub struct PluginScanner;

impl PluginScanner {
    /// The plugin at a path, given what it says of itself.
    pub fn build_plugin_meta(info: PluginInfo, fcplug: PathBuf) -> (r: PluginMeta)
        ensures
            r@ == info@.at(fcplug),
    {
        PluginMeta {
            id: info.id,
            name: info.name,
            description: info.description,
            author: info.author,
            version: info.version,
            kind: info.kind,
            fcplug_path: fcplug,
        }
    }
}

/// The plugins that there are, by their ids.
#[derive(Debug)]
pub struct PluginManager {
    pub plugins: TextMap<PluginMeta>,
}

/// The plugins that there are.
pub type Plugins = Seq<(Seq<char>, MetaView)>;

impl View for PluginManager {
    type V = Plugins;

    open spec fn view(&self) -> Plugins {
        self.plugins@
    }
}

/// Why a plugin is not taken in, if it is not.
pub open spec fn refusal(plugins: Plugins, info: InfoView) -> Option<Seq<char>> {
    if lookup(plugins, info.id) is Some {
        Some("plugin "@ + info.id + " already exists"@)
    } else if info.abi_version != SUPPORTED_ABI_VERSION {
        Some("skip plugin "@ + info.id + ": version mismatch"@)
    } else {
        None
    }
}

/// What is noted of a plugin that was found but is passed over.
pub open spec fn note_on(plugins: Plugins, info: InfoView) -> Option<Seq<char>> {
    if lookup(plugins, info.id) is Some {
        Some("duplicate plugin id "@ + info.id)
    } else if info.abi_version != SUPPORTED_ABI_VERSION {
        Some("skip plugin "@ + info.id + ": version mismatch"@)
    } else {
        None
    }
}

/// The plugins with one more, unless it is passed over.
pub open spec fn with_found(plugins: Plugins, info: InfoView, path: PathBuf) -> Plugins {
    if note_on(plugins, info) is None {
        with_entry(plugins, info.id, info.at(path))
    } else {
        plugins
    }
}

/// Why a plugin cannot be used for a purpose, if it cannot.
pub open spec fn unusable(plugins: Plugins, id: Seq<char>, kind: PluginKind) -> Option<Seq<char>> {
    match lookup(plugins, id) {
        None => Some("plugin "@ + id + " not found"@),
        Some(meta) => if meta.kind != kind {
            Some("plugin "@ + id + " kind mismatch"@)
        } else {
            None
        },
    }
}

fn message(front: &str, id: &str, back: &str) -> (r: String)
    ensures
        r@ == front@ + id@ + back@,
{
    let mut r: String = front.to_owned();
    r.append(id);
    r.append(back);
    r
}

impl PluginManager {
    /// No plugins.
    pub fn new() -> (r: PluginManager)
        ensures
            r@ == Seq::<(Seq<char>, MetaView)>::empty(),
    {
        PluginManager { plugins: TextMap::new() }
    }

    /// Whether a plugin may be added: its id must be free, and its version the right one.
    pub fn check_new(&self, info: &PluginInfo) -> (r: Result<(), String>)
        ensures
            match r {
                Ok(_) => refusal(self@, info@) is None,
                Err(e) => refusal(self@, info@) == Some(e@),
            },
    {
        if self.plugins.get(info.id.as_str()).is_some() {
            return Err(message("plugin ", info.id.as_str(), " already exists"));
        }
        if info.abi_version != SUPPORTED_ABI_VERSION {
            return Err(message("skip plugin ", info.id.as_str(), ": version mismatch"));
        }
        Ok(())
    }

    /// Adds a plugin that was stored at a path, if it may be added.
    pub fn add_plugin(&mut self, info: PluginInfo, fcplug: PathBuf) -> (r: Result<(), String>)
        ensures
            match r {
                Ok(_) => refusal(old(self)@, info@) is None && final(self)@ == with_entry(
                    old(self)@,
                    info@.id,
                    info@.at(fcplug),
                ),
                Err(e) => refusal(old(self)@, info@) == Some(e@) && final(self)@ == old(self)@,
            },
    {
        match self.check_new(&info) {
            Ok(_) => {
                let id: String = info.id.clone();
                let meta: PluginMeta = PluginScanner::build_plugin_meta(info, fcplug);
                self.plugins.insert(id.as_str(), meta);
                Ok(())
            },
            Err(e) => Err(e),
        }
    }

    /// Takes in a plugin that was found; one that is passed over is noted.
    pub fn take_found(&mut self, info: PluginInfo, fcplug: PathBuf) -> (r: Option<String>)
        ensures
            final(self)@ == with_found(old(self)@, info@, fcplug),
            view_opt(r) == note_on(old(self)@, info@),
    {
        if self.plugins.get(info.id.as_str()).is_some() {
            let mut note: String = "duplicate plugin id ".to_owned();
            note.append(info.id.as_str());
            return Some(note);
        }
        if info.abi_version != SUPPORTED_ABI_VERSION {
            return Some(message("skip plugin ", info.id.as_str(), ": version mismatch"));
        }
        let id: String = info.id.clone();
        let meta: PluginMeta = PluginScanner::build_plugin_meta(info, fcplug);
        self.plugins.insert(id.as_str(), meta);
        None
    }

    /// The plugin to be used for a purpose.
    pub fn find_plugin(&self, id: &str, kind: PluginKind) -> (r: Result<&PluginMeta, String>)
        ensures
            match r {
                Ok(meta) => unusable(self@, id@, kind) is None && lookup(self@, id@) == Some(meta@),
                Err(e) => unusable(self@, id@, kind) == Some(e@),
            },
    {
        match self.plugins.get(id) {
            None => Err(message("plugin ", id, " not found")),
            Some(meta) => if meta.kind != kind {
                Err(message("plugin ", id, " kind mismatch"))
            } else {
                Ok(meta)
            },
        }
    }
}

impl Default for PluginManager {
    fn default() -> (r: Self)
        ensures
            r@ == Seq::<(Seq<char>, MetaView)>::empty(),
    {
        PluginManager::new()
    }
}

/// Whether plugins are kept under their own ids.
pub open spec fn filed(plugins: Plugins) -> bool {
    forall|i: int| #![trigger plugins[i]] 0 <= i < plugins.len() ==> plugins[i].1.id == plugins[i].0
}

/// Of plugins with one id the first stays: what is found or added later changes nothing under
/// an id that is taken, and every plugin is found under its own id.
pub proof fn lemma_first_plugin_stays(
    plugins: Plugins,
    info: InfoView,
    path: PathBuf,
    id: Seq<char>,
)
    requires
        ascending(plugins),
        filed(plugins),
    ensures
        lookup(plugins, id) is Some ==> lookup(with_found(plugins, info, path), id) == lookup(
            plugins,
            id,
        ),
        filed(with_found(plugins, info, path)),
        refusal(plugins, info) is None ==> lookup(
            with_entry(plugins, info.id, info.at(path)),
            info.id,
        ) == Some(info.at(path)),
{
    lemma_with_entry(plugins, info.id, info.at(path));
    lemma_rank(plugins, info.id);
    let r = with_found(plugins, info, path);
    if note_on(plugins, info) is None {
        assert forall|i: int| #![trigger r[i]] 0 <= i < r.len() implies r[i].1.id == r[i].0 by {
            let p = rank(plugins, info.id);
            if r.len() == plugins.len() {
                if i != p {
                    assert(r[i] == plugins[i]);
                }
            } else if i < p {
                assert(r[i] == plugins[i]);
            } else if i > p {
                assert(r[i] == plugins[i - 1]);
            }
        }
    }
}

/// A plugin is taken in exactly where its id is free and its version is the supported one; it is
/// used exactly for what it is for. What it says of itself is kept.
pub proof fn lemma_which_plugins_are_used(
    plugins: Plugins,
    info: InfoView,
    path: PathBuf,
    id: Seq<char>,
    kind: PluginKind,
)
    ensures
        refusal(plugins, info) is None <==> lookup(plugins, info.id) is None && info.abi_version
            == 1,
        note_on(plugins, info) is None <==> lookup(plugins, info.id) is None && info.abi_version
            == 1,
        unusable(plugins, id, kind) is None <==> lookup(plugins, id) is Some && lookup(
            plugins,
            id,
        )->0.kind == kind,
        info.at(path).id == info.id,
        info.at(path).name == info.name,
        info.at(path).description == info.description,
        info.at(path).author == info.author,
        info.at(path).version == info.version,
        info.at(path).kind == info.kind,
        info.at(path).fcplug_path == path,
{
}

/// Why a plugin is not taken in or not used is told with its id.
pub proof fn lemma_why_a_plugin_is_not_used(
    plugins: Plugins,
    info: InfoView,
    id: Seq<char>,
    kind: PluginKind,
)
    ensures
        lookup(plugins, info.id) is Some ==> refusal(plugins, info) == Some(
            "plugin "@ + info.id + " already exists"@,
        ) && note_on(plugins, info) == Some("duplicate plugin id "@ + info.id),
        lookup(plugins, info.id) is None && info.abi_version != 1 ==> refusal(plugins, info)
            == Some("skip plugin "@ + info.id + ": version mismatch"@) && note_on(plugins, info)
            == refusal(plugins, info),
        lookup(plugins, id) is None ==> unusable(plugins, id, kind) == Some(
            "plugin "@ + id + " not found"@,
        ),
        lookup(plugins, id) is Some && lookup(plugins, id)->0.kind != kind ==> unusable(
            plugins,
            id,
            kind,
        ) == Some("plugin "@ + id + " kind mismatch"@),
{
}

/// A plugin that was found and is not passed over is there afterwards, under its id and at its path;
/// one that is passed over changes nothing.
pub proof fn lemma_found_plugin_is_there(plugins: Plugins, info: InfoView, path: PathBuf)
    requires
        ascending(plugins),
    ensures
        lookup(plugins, info.id) is None && info.abi_version == 1 ==> lookup(
            with_found(plugins, info, path),
            info.id,
        ) == Some(info.at(path)),
        lookup(plugins, info.id) is Some || info.abi_version != 1 ==> with_found(
            plugins,
            info,
            path,
        ) == plugins,
{
    lemma_with_entry(plugins, info.id, info.at(path));
}

} // verus!
