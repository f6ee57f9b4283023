//! The key bindings from the Niri config, so the window menu can show the shortcut for anything
//! that has one.
//!
//! Niri doesn't hand its bindings out over IPC, so they're read from its config file, and from the
//! files that one includes. A [`Loader`] says which file to read next and takes in what it says.

use vstd::prelude::*;

use crate::kdl::{all_say, document, parse, readable, Node, NodeView};
use crate::text::{copy_texts, same_text, slice_texts, texts};

verus! {

/// A single key binding.
#[derive(Debug, Clone, PartialEq, Eq)]
pub struct Bind {
    /// The key combination as Niri writes it, like `Mod+Shift+F`.
    pub keys: String,
    pub action: String,
    pub args: Vec<String>,
}

/// What a [`Bind`] says.
#[verifier::ext_equal]
pub struct BindView {
    pub keys: Seq<char>,
    pub action: Seq<char>,
    pub args: Seq<Seq<char>>,
}

impl Bind {
    /// What this bind says.
    pub open spec fn says(self) -> BindView {
        BindView { keys: self.keys@, action: self.action@, args: texts(self.args@) }
    }
}

/// What each bind in a sequence says.
pub open spec fn binds_say(binds: Seq<Bind>) -> Seq<BindView> {
    binds.map_values(|b: Bind| b.says())
}

/// Every key binding in the config, in order.
#[derive(Debug, Default)]
pub struct Binds(pub Vec<Bind>);

/// Whether a bind runs the given action with the given arguments.
pub open spec fn runs(b: BindView, action: Seq<char>, args: Seq<Seq<char>>) -> bool {
    b.action == action && b.args == args
}

/// The keys for the first bind that runs the given action with the given arguments.
pub open spec fn keys_for(
    binds: Seq<BindView>,
    action: Seq<char>,
    args: Seq<Seq<char>>,
) -> Option<Seq<char>>
    decreases binds.len(),
{
    if binds.len() == 0 {
        None
    } else if runs(binds[0], action, args) {
        Some(binds[0].keys)
    } else {
        keys_for(binds.skip(1), action, args)
    }
}

/// The keys found belong to a bind that runs the action, with no such bind before it, and none are
/// found only where no bind does.
pub proof fn law_first_bind_wins(binds: Seq<BindView>, action: Seq<char>, args: Seq<Seq<char>>)
    ensures
        match keys_for(binds, action, args) {
            Some(keys) => exists|i: int|
                0 <= i < binds.len() && runs(#[trigger] binds[i], action, args) && binds[i].keys == keys
                    && forall|j: int| 0 <= j < i ==> !runs(#[trigger] binds[j], action, args),
            None => forall|j: int| 0 <= j < binds.len() ==> !runs(#[trigger] binds[j], action, args),
        },
    decreases binds.len(),
{
    if binds.len() == 0 {
    } else if runs(binds[0], action, args) {
    } else {
        let rest = binds.skip(1);
        law_first_bind_wins(rest, action, args);
        assert(forall|j: int| 0 < j < binds.len() ==> #[trigger] binds[j] == rest[j - 1]);
        if let Some(keys) = keys_for(rest, action, args) {
            let i = choose|i: int|
                0 <= i < rest.len() && runs(#[trigger] rest[i], action, args) && rest[i].keys == keys
                    && forall|j: int| 0 <= j < i ==> !runs(#[trigger] rest[j], action, args);
            assert(runs(binds[i + 1], action, args));
        }
    }
}

impl Binds {
    /// What these binds say.
    pub open spec fn says(self) -> Seq<BindView> {
        binds_say(self.0@)
    }

    /// The bindings that were read from the Niri config, or none if it couldn't be found.
    pub fn load(read: Option<Loader>) -> (r: Self)
        requires
            read is Some ==> read->0@.wanted is None,
        ensures
            r.says() == match read {
                Some(loader) => loader@.found,
                None => Seq::empty(),
            },
    {
        match read {
            Some(loader) => Binds(loader.binds),
            None => Binds(Vec::new()),
        }
    }

    /// Returns the keys for the first bind that runs the given action with the given arguments.
    pub fn find(&self, action: &str, args: &[&str]) -> (r: Option<&str>)
        ensures
            match keys_for(self.says(), action@, slice_texts(args@)) {
                Some(keys) => r is Some && r->0@ == keys,
                None => r is None,
            },
    {
        let mut i: usize = 0;
        proof {
            assert(self.says().skip(0) =~= self.says());
        }
        while i < self.0.len()
            invariant
                i <= self.0@.len(),
                keys_for(self.says(), action@, slice_texts(args@)) == keys_for(
                    self.says().skip(i as int),
                    action@,
                    slice_texts(args@),
                ),
            decreases self.0@.len() - i,
        {
            proof {
                assert(self.says().skip(i as int)[0] == self.0@[i as int].says());
                assert(self.says().skip(i as int).skip(1) =~= self.says().skip(i + 1));
            }
            if same_text(self.0[i].action.as_str(), action) && same_args(&self.0[i].args, args) {
                return Some(self.0[i].keys.as_str());
            }
            i += 1;
        }
        None
    }
}

/// Returns true if the arguments are the same, one for one.
fn same_args(have: &Vec<String>, want: &[&str]) -> (r: bool)
    ensures
        r == (texts(have@) == slice_texts(want@)),
{
    if have.len() != want.len() {
        assert(texts(have@).len() != slice_texts(want@).len());
        return false;
    }
    let mut i: usize = 0;
    while i < have.len()
        invariant
            i <= have@.len(),
            have@.len() == want@.len(),
            forall|j: int| 0 <= j < i ==> texts(have@)[j] == slice_texts(want@)[j],
        decreases have@.len() - i,
    {
        if !same_text(have[i].as_str(), want[i]) {
            assert(texts(have@)[i as int] != slice_texts(want@)[i as int]);
            return false;
        }
        i += 1;
    }
    assert(texts(have@) =~= slice_texts(want@));
    true
}

/// What a node from the `binds` section binds: the node's name is the key combination, and its
/// first child is the action.
pub open spec fn bind_of(node: NodeView) -> Option<BindView> {
    if node.children.len() == 0 {
        None
    } else {
        Some(
            BindView {
                keys: node.name,
                action: node.children[0].name,
                args: node.children[0].args,
            },
        )
    }
}

/// Turns a node from the `binds` section into a bind: the node's name is the key combination, and
/// its first child is the action.
pub fn bind(node: &Node) -> (r: Option<Bind>)
    ensures
        match bind_of(node.says()) {
            Some(b) => r is Some && r->0.says() == b,
            None => r is None,
        },
{
    proof {
        lemma_all_say(node.children@);
    }
    if node.children.len() == 0 {
        return None;
    }
    let action = &node.children[0];
    Some(Bind { keys: node.name.clone(), action: action.name.clone(), args: copy_texts(&action.args) })
}

/// The binds that the nodes of a `binds` section make.
pub open spec fn section_binds(children: Seq<NodeView>) -> Seq<BindView>
    decreases children.len(),
{
    if children.len() == 0 {
        Seq::empty()
    } else {
        let rest = section_binds(children.drop_last());
        match bind_of(children.last()) {
            Some(b) => rest.push(b),
            None => rest,
        }
    }
}

/// Turns the nodes of a `binds` section into binds, leaving out those without an action.
pub fn read_section(children: &Vec<Node>) -> (r: Vec<Bind>)
    ensures
        binds_say(r@) == section_binds(all_say(children@)),
{
    let mut r: Vec<Bind> = Vec::new();
    let mut i: usize = 0;
    proof {
        lemma_all_say(children@);
        assert(all_say(children@).take(0) =~= Seq::empty());
        assert(binds_say(r@) =~= Seq::empty());
    }
    while i < children.len()
        invariant
            i <= children@.len(),
            all_say(children@).len() == children@.len(),
            forall|j: int| 0 <= j < children@.len() ==> #[trigger] all_say(children@)[j] == children@[j].says(),
            binds_say(r@) == section_binds(all_say(children@).take(i as int)),
        decreases children@.len() - i,
    {
        let ghost all = all_say(children@);
        proof {
            assert(all.take(i + 1).drop_last() =~= all.take(i as int));
            assert(all.take(i + 1).last() == children@[i as int].says());
        }
        if let Some(b) = bind(&children[i]) {
            proof {
                assert(binds_say(r@.push(b)) =~= binds_say(r@).push(b.says()));
            }
            r.push(b);
        }
        i += 1;
    }
    proof {
        assert(all_say(children@).take(i as int) =~= all_say(children@));
    }
    r
}

/// What the nodes say, one by one.
pub proof fn lemma_all_say(nodes: Seq<Node>)
    ensures
        all_say(nodes).len() == nodes.len(),
        forall|i: int| 0 <= i < nodes.len() ==> #[trigger] all_say(nodes)[i] == nodes[i].says(),
    decreases nodes.len(),
{
    if nodes.len() > 0 {
        lemma_all_say(nodes.drop_last());
    }
}

/// How deep includes are followed. Includes can include each other; this is plenty deep for
/// anything sensible.
pub const MAX_DEPTH: usize = 8;

/// Every file that can be read, by the includes that lead to it from the config: `None` stands for
/// one that can't be read.
pub type Files = spec_fn(Seq<Seq<char>>) -> Option<Seq<char>>;

/// The binds that come from the file the given includes lead to, in order.
pub open spec fn file_binds(files: Files, chain: Seq<Seq<char>>) -> Seq<BindView>
    decreases MAX_DEPTH + 1 - chain.len(), 1int, 0int,
{
    if chain.len() > MAX_DEPTH {
        Seq::empty()
    } else {
        match files(chain) {
            Some(source) => nodes_binds(files, chain, document(source)),
            None => Seq::empty(),
        }
    }
}

/// The binds that come from the nodes of the file the given includes lead to, in order.
pub open spec fn nodes_binds(
    files: Files,
    chain: Seq<Seq<char>>,
    nodes: Seq<NodeView>,
) -> Seq<BindView>
    decreases MAX_DEPTH + 1 - chain.len(), 0int, nodes.len(),
{
    if nodes.len() == 0 || chain.len() > MAX_DEPTH {
        Seq::empty()
    } else {
        let node = nodes[0];
        let own = if node.name == "binds"@ {
            section_binds(node.children)
        } else if node.name == "include"@ && node.args.len() > 0 {
            file_binds(files, chain.push(node.args[0]))
        } else {
            Seq::empty()
        };
        own + nodes_binds(files, chain, nodes.skip(1))
    }
}

/// A file that is being gone through: the includes that lead to it, and the nodes that are left.
#[verifier::ext_equal]
pub struct FrameView {
    pub chain: Seq<Seq<char>>,
    pub left: Seq<NodeView>,
}

/// What a [`Loader`] holds.
#[verifier::ext_equal]
pub struct LoaderView {
    /// The binds that have been found so far.
    pub found: Seq<BindView>,
    /// The files that are being gone through, each of them included by the one before.
    pub frames: Seq<FrameView>,
    /// The includes that lead to the file that should be read next, or `None` once every file has
    /// been read.
    pub wanted: Option<Seq<Seq<char>>>,
}

/// How much there is left to go through.
pub open spec fn work(frames: Seq<FrameView>) -> nat
    decreases frames.len(),
{
    if frames.len() == 0 {
        0
    } else {
        1 + work(frames.drop_last()) + frames.last().left.len()
    }
}

/// A file that is being gone through, with one node less.
pub open spec fn past_node(frames: Seq<FrameView>) -> Seq<FrameView> {
    let frame = frames.last();
    frames.drop_last().push(FrameView { chain: frame.chain, left: frame.left.skip(1) })
}

/// What comes of going through the files that have been read until another one is needed.
pub open spec fn advanced(found: Seq<BindView>, frames: Seq<FrameView>) -> LoaderView
    decreases work(frames),
{
    if frames.len() == 0 {
        LoaderView { found, frames, wanted: None }
    } else if frames.last().left.len() == 0 {
        advanced(found, frames.drop_last())
    } else {
        proof {
            assert(past_node(frames).drop_last() =~= frames.drop_last());
        }
        let node = frames.last().left[0];
        let chain = frames.last().chain;
        if node.name == "binds"@ {
            advanced(found + section_binds(node.children), past_node(frames))
        } else if node.name == "include"@ && node.args.len() > 0 && chain.len() < MAX_DEPTH {
            LoaderView {
                found,
                frames: past_node(frames),
                wanted: Some(chain.push(node.args[0])),
            }
        } else {
            advanced(found, past_node(frames))
        }
    }
}

impl LoaderView {
    /// What comes of reading the wanted file, or of it not being there to read.
    pub open spec fn after(self, source: Option<Seq<char>>) -> LoaderView {
        advanced(
            self.found,
            match source {
                Some(text) => self.frames.push(
                    FrameView { chain: self.wanted->0, left: document(text) },
                ),
                None => self.frames,
            },
        )
    }
}

/// The binds that the files being gone through have yet to give, innermost first.
pub open spec fn frames_binds(files: Files, frames: Seq<FrameView>) -> Seq<BindView>
    decreases frames.len(),
{
    if frames.len() == 0 {
        Seq::empty()
    } else {
        nodes_binds(files, frames.last().chain, frames.last().left) + frames_binds(
            files,
            frames.drop_last(),
        )
    }
}

/// Every bind there will be once the given files have been read.
pub open spec fn outcome(view: LoaderView, files: Files) -> Seq<BindView> {
    view.found + (match view.wanted {
        Some(chain) => file_binds(files, chain),
        None => Seq::empty(),
    } + frames_binds(files, view.frames))
}

/// Whether no file is deeper than includes are followed.
pub open spec fn shallow(frames: Seq<FrameView>) -> bool {
    forall|i: int| 0 <= i < frames.len() ==> (#[trigger] frames[i]).chain.len() <= MAX_DEPTH
}

proof fn lemma_advanced(found: Seq<BindView>, frames: Seq<FrameView>, files: Files)
    requires
        shallow(frames),
    ensures
        outcome(advanced(found, frames), files) == found + frames_binds(files, frames),
        shallow(advanced(found, frames).frames),
        match advanced(found, frames).wanted {
            Some(chain) => chain.len() <= MAX_DEPTH,
            None => advanced(found, frames).frames.len() == 0,
        },
    decreases work(frames),
{
    if frames.len() == 0 {
        assert(outcome(advanced(found, frames), files) =~= found + frames_binds(files, frames));
    } else if frames.last().left.len() == 0 {
        lemma_advanced(found, frames.drop_last(), files);
        assert(frames_binds(files, frames) =~= frames_binds(files, frames.drop_last()));
    } else {
        let node = frames.last().left[0];
        let chain = frames.last().chain;
        let past = past_node(frames);
        assert(frames[frames.len() - 1] == frames.last());
        assert(past.drop_last() =~= frames.drop_last());
        let rest = nodes_binds(files, chain, frames.last().left.skip(1)) + frames_binds(
            files,
            frames.drop_last(),
        );
        assert(frames_binds(files, past) == rest);
        if node.name == "binds"@ {
            let own = section_binds(node.children);
            lemma_advanced(found + own, past, files);
            assert(found + frames_binds(files, frames) =~= found + own + rest);
        } else if node.name == "include"@ && node.args.len() > 0 {
            let own = file_binds(files, chain.push(node.args[0]));
            assert(frames_binds(files, frames) =~= own + rest);
            if chain.len() >= MAX_DEPTH {
                lemma_advanced(found, past, files);
                assert(own =~= Seq::empty());
                assert(frames_binds(files, frames) =~= rest);
            }
        } else {
            lemma_advanced(found, past, files);
            assert(frames_binds(files, frames) =~= rest);
        }
    }
}

/// Reading a file leaves what there will be in the end as it was, as long as it says what it was said
/// to say.
pub proof fn law_reading_keeps_the_outcome(view: LoaderView, files: Files)
    requires
        view.wanted is Some,
        view.wanted->0.len() <= MAX_DEPTH,
        shallow(view.frames),
    ensures
        outcome(view.after(files(view.wanted->0)), files) == outcome(view, files),
{
    let chain = view.wanted->0;
    match files(chain) {
        Some(text) => {
            let frames = view.frames.push(FrameView { chain, left: document(text) });
            assert(frames.drop_last() =~= view.frames);
            lemma_advanced(view.found, frames, files);
        },
        None => {
            lemma_advanced(view.found, view.frames, files);
            assert(Seq::<BindView>::empty() + frames_binds(files, view.frames) =~= frames_binds(
                files,
                view.frames,
            ));
        },
    }
}

/// Once every file has been read, the binds that have been found are those that come from the
/// config.
pub proof fn law_every_bind_is_found(view: LoaderView, files: Files)
    requires
        view.wanted is None,
        view.frames.len() == 0,
        outcome(view, files) == file_binds(files, Seq::empty()),
    ensures
        view.found == file_binds(files, Seq::empty()),
{
    assert(outcome(view, files) =~= view.found);
}

/// A file that is being gone through, up to `next` of its nodes.
struct Frame {
    chain: Vec<String>,
    nodes: Vec<Node>,
    next: usize,
}

impl Frame {
    spec fn wf(self) -> bool {
        &&& self.next <= self.nodes@.len()
        &&& self.chain@.len() <= MAX_DEPTH
    }

    spec fn says(self) -> FrameView {
        FrameView { chain: texts(self.chain@), left: all_say(self.nodes@).skip(self.next as int) }
    }
}

spec fn frames_say(frames: Seq<Frame>) -> Seq<FrameView> {
    frames.map_values(|frame: Frame| frame.says())
}

/// Reads the config, one file at a time.
pub struct Loader {
    frames: Vec<Frame>,
    binds: Vec<Bind>,
    wants: Option<Vec<String>>,
}

impl View for Loader {
    type V = LoaderView;

    closed spec fn view(&self) -> LoaderView {
        LoaderView {
            found: binds_say(self.binds@),
            frames: frames_say(self.frames@),
            wanted: match self.wants {
                Some(chain) => Some(texts(chain@)),
                None => None,
            },
        }
    }
}

impl Loader {
    #[verifier::type_invariant]
    spec fn wf(self) -> bool {
        &&& forall|i: int| 0 <= i < self.frames@.len() ==> (#[trigger] self.frames@[i]).wf()
        &&& self.wants is Some ==> self.wants->0@.len() <= MAX_DEPTH
    }

    /// Starts from the config itself.
    pub fn new() -> (r: Self)
        ensures
            r@ == (LoaderView {
                found: Seq::empty(),
                frames: Seq::empty(),
                wanted: Some(Seq::empty()),
            }),
    {
        let r = Loader { frames: Vec::new(), binds: Vec::new(), wants: Some(Vec::new()) };
        proof {
            assert(texts(r.wants->0@) =~= Seq::<Seq<char>>::empty());
            assert(r@.found =~= Seq::<BindView>::empty());
            assert(r@.frames =~= Seq::<FrameView>::empty());
        }
        r
    }

    /// The file to read next, as the includes that lead to it from the config, or `None` once every
    /// file has been read.
    pub fn next(&self) -> (r: Option<&Vec<String>>)
        ensures
            match self@.wanted {
                Some(chain) => r is Some && texts(r->0@) == chain,
                None => r is None,
            },
    {
        match &self.wants {
            Some(chain) => Some(chain),
            None => None,
        }
    }

    /// Takes in what the wanted file says, or `None` if it can't be read, and goes on to the next
    /// one.
    pub fn supply(self, source: Option<&str>) -> (r: Self)
        requires
            self@.wanted is Some,
            source is Some ==> readable(source->0@),
        ensures
            r@ == self@.after(
                match source {
                    Some(text) => Some(text@),
                    None => None,
                },
            ),
            shallow(r@.frames),
            match r@.wanted {
                Some(chain) => chain.len() <= MAX_DEPTH,
                None => r@.frames.len() == 0,
            },
    {
        proof {
            use_type_invariant(&self);
        }
        let ghost before = self@;
        let binds = self.binds;
        let mut frames = self.frames;
        let chain = self.wants.unwrap();
        if let Some(text) = source {
            let nodes = parse(text);
            let ghost old_frames = frames@;
            frames.push(Frame { chain, nodes, next: 0 });
            proof {
                let ghost frame = frames@[frames@.len() - 1];
                assert(frame.says().left =~= document(text@));
                assert(frames_say(frames@) =~= frames_say(old_frames).push(frame.says()));
            }
        }
        Self::advance(frames, binds)
    }

    /// Goes through the files that have been read until another one is needed.
    #[verifier::loop_isolation(false)]
    fn advance(frames: Vec<Frame>, binds: Vec<Bind>) -> (r: Self)
        requires
            forall|i: int| 0 <= i < frames@.len() ==> (#[trigger] frames@[i]).wf(),
        ensures
            r@ == advanced(binds_say(binds@), frames_say(frames@)),
            shallow(r@.frames),
            match r@.wanted {
                Some(chain) => chain.len() <= MAX_DEPTH,
                None => r@.frames.len() == 0,
            },
    {
        let mut frames = frames;
        let mut binds = binds;
        let ghost target = advanced(binds_say(binds@), frames_say(frames@));
        loop
            invariant
                forall|i: int| 0 <= i < frames@.len() ==> (#[trigger] frames@[i]).wf(),
                target == advanced(binds_say(binds@), frames_say(frames@)),
            decreases work(frames_say(frames@)),
        {
            let ghost before = frames@;
            let ghost said = binds_say(binds@);
            let mut frame = match frames.pop() {
                Some(frame) => frame,
                None => {
                    return Loader { frames, binds, wants: None };
                },
            };
            let ghost was = frame;
            proof {
                assert(was == before[before.len() - 1]);
                assert(frames_say(before).last() == was.says());
                assert(frames_say(before).drop_last() =~= frames_say(frames@));
                assert(was.wf());
                lemma_all_say(was.nodes@);
            }
            if frame.next == frame.nodes.len() {
                assert(was.says().left.len() == 0);
                continue ;
            }
            let at: usize = frame.next;
            frame.next = at + 1;
            let node = &frame.nodes[at];
            let ghost says = node.says();
            proof {
                assert(was.says().left[0] == says);
                assert(was.says().left.skip(1) =~= frame.says().left);
                assert(past_node(frames_say(before)) =~= frames_say(frames@.push(frame)));
                assert(past_node(frames_say(before)).drop_last() =~= frames_say(frames@));
            }
            if same_text(node.name.as_str(), "binds") {
                let mut section = read_section(&node.children);
                let ghost kept = binds@;
                let ghost read = section@;
                binds.append(&mut section);
                proof {
                    assert(binds@ == kept + read);
                    assert(binds_say(binds@) =~= said + binds_say(read));
                }
                frames.push(frame);
            } else if same_text(node.name.as_str(), "include") && node.args.len() > 0
                && frame.chain.len() < MAX_DEPTH {
                let mut deeper = copy_texts(&frame.chain);
                deeper.push(node.args[0].clone());
                proof {
                    assert(texts(deeper@) =~= texts(was.chain@).push(says.args[0]));
                }
                frames.push(frame);
                let r = Loader { frames, binds, wants: Some(deeper) };
                proof {
                    assert(texts(was.chain@).len() == was.chain@.len());
                    assert forall|i: int| 0 <= i < r@.frames.len() implies (
                    #[trigger] r@.frames[i]).chain.len() <= MAX_DEPTH by {
                        assert(frames@[i].wf());
                    }
                }
                return r;
            } else {
                frames.push(frame);
            }
        }
    }
}

/// Where Niri's config file is.
#[derive(Debug, Clone, Copy, PartialEq, Eq, Structural)]
pub enum ConfigPath {
    /// Where `NIRI_CONFIG` says outright.
    Given,
    /// In the directory that `XDG_CONFIG_HOME` says.
    ConfigHome,
    /// In `.config` in the directory that `HOME` says.
    Home,
    /// In the system's configuration directory.
    System,
}

/// Where Niri reads its config from.
pub open spec fn config_at(
    given: bool,
    config_home: Option<bool>,
    home: Option<bool>,
    system_exists: bool,
) -> Option<ConfigPath> {
    if given {
        Some(ConfigPath::Given)
    } else {
        match (config_home, home) {
            (Some(true), _) => Some(ConfigPath::ConfigHome),
            (None, Some(true)) => Some(ConfigPath::Home),
            (None, None) => None,
            _ => if system_exists {
                Some(ConfigPath::System)
            } else {
                None
            },
        }
    }
}

/// Works out where Niri reads its config from, given whether `NIRI_CONFIG` is set, whether the file
/// is there in the directories that `XDG_CONFIG_HOME` and `HOME` lead to, for those that are set, and
/// whether it's there in the system's directory. `HOME` counts only where `XDG_CONFIG_HOME` isn't
/// set, and what `NIRI_CONFIG` says counts whether it's there or not.
pub fn config_path(
    given: bool,
    config_home: Option<bool>,
    home: Option<bool>,
    system_exists: bool,
) -> (r: Option<ConfigPath>)
    ensures
        r == if given {
            Some(ConfigPath::Given)
        } else {
            match (config_home, home) {
                (Some(true), _) => Some(ConfigPath::ConfigHome),
                (None, Some(true)) => Some(ConfigPath::Home),
                (None, None) => None,
                _ => if system_exists {
                    Some(ConfigPath::System)
                } else {
                    None
                },
            }
        },
        r == config_at(given, config_home, home, system_exists),
{
    if given {
        return Some(ConfigPath::Given);
    }
    let (user, user_exists) = match (config_home, home) {
        (Some(exists), _) => (ConfigPath::ConfigHome, exists),
        (None, Some(exists)) => (ConfigPath::Home, exists),
        (None, None) => return None,
    };
    if user_exists {
        Some(user)
    } else if system_exists {
        Some(ConfigPath::System)
    } else {
        None
    }
}

/// The keys shown for an action are those of the first bind with just that action and just those
/// arguments, and there are none where no bind has both.
pub proof fn law_keys_are_of_the_first_bind(
    binds: Seq<BindView>,
    action: Seq<char>,
    args: Seq<Seq<char>>,
    i: int,
)
    ensures
        0 <= i < binds.len() && binds[i].action == action && binds[i].args == args && (forall|j: int|
            0 <= j < i ==> !((#[trigger] binds[j]).action == action && binds[j].args == args))
            ==> keys_for(binds, action, args) == Some(binds[i].keys),
        (forall|j: int|
            0 <= j < binds.len() ==> !((#[trigger] binds[j]).action == action && binds[j].args == args))
            ==> keys_for(binds, action, args) is None,
{
    law_first_bind_wins(binds, action, args);
    if let Some(keys) = keys_for(binds, action, args) {
        let k = choose|k: int|
            0 <= k < binds.len() && runs(#[trigger] binds[k], action, args) && binds[k].keys == keys
                && forall|j: int| 0 <= j < k ==> !runs(#[trigger] binds[j], action, args);
        assert(binds[k].action == action && binds[k].args == args);
        if 0 <= i < k {
            assert(!runs(binds[i], action, args));
        }
    } else {
        if 0 <= i < binds.len() {
            assert(!runs(binds[i], action, args));
        }
    }
}

/// The binds of a section are those of its nodes that have an action, in order: with the node's name
/// as the keys, and its first child's name and arguments as the action and its arguments. One more
/// node adds its own bind at the end, if it makes one, and changes nothing else.
pub proof fn law_nodes_make_binds(children: Seq<NodeView>, node: NodeView)
    ensures
        section_binds(Seq::empty()).len() == 0,
        node.children.len() == 0 ==> section_binds(children.push(node)) == section_binds(children),
        node.children.len() > 0 ==> section_binds(children.push(node)).len() == section_binds(
            children,
        ).len() + 1 && section_binds(children.push(node)).drop_last() == section_binds(children) && ({
            let b = section_binds(children.push(node)).last();
            &&& b.keys == node.name
            &&& b.action == node.children[0].name
            &&& b.args == node.children[0].args
        }),
{
    assert(children.push(node).drop_last() =~= children);
    if node.children.len() > 0 {
        assert(section_binds(children.push(node)).drop_last() =~= section_binds(children));
    }
}

/// The binds of a file are those of its nodes in order: of a `binds` section the ones in it, of an
/// `include` all those of the file it leads to, where that can be read and isn't more than eight
/// includes away, and of anything else none.
pub proof fn law_includes_are_followed(
    files: Files,
    chain: Seq<Seq<char>>,
    node: NodeView,
    rest: Seq<NodeView>,
)
    requires
        chain.len() <= 8,
    ensures
        ({
            let all = nodes_binds(files, chain, seq![node] + rest);
            let others = nodes_binds(files, chain, rest);
            &&& node.name == "binds"@ ==> all == section_binds(node.children) + others
            &&& node.name == "include"@ && node.args.len() > 0 && chain.len() < 8 && files(
                chain.push(node.args[0]),
            ) is Some ==> all == nodes_binds(
                files,
                chain.push(node.args[0]),
                document(files(chain.push(node.args[0]))->0),
            ) + others
            &&& node.name == "include"@ && node.args.len() > 0 && (chain.len() == 8 || files(
                chain.push(node.args[0]),
            ) is None) ==> all == others
            &&& node.name == "include"@ && node.args.len() == 0 ==> all == others
            &&& node.name != "binds"@ && node.name != "include"@ ==> all == others
        }),
        nodes_binds(files, chain, Seq::empty()).len() == 0,
        file_binds(files, Seq::empty()) == match files(Seq::empty()) {
            Some(source) => nodes_binds(files, Seq::empty(), document(source)),
            None => Seq::empty(),
        },
{
    let nodes = seq![node] + rest;
    reveal_strlit("binds");
    reveal_strlit("include");
    assert("binds"@.len() != "include"@.len());
    assert(nodes.skip(1) =~= rest);
    assert(nodes[0] == node);
    let others = nodes_binds(files, chain, rest);
    assert(Seq::<BindView>::empty() + others =~= others);
    if node.name == "include"@ && node.args.len() > 0 {
        let next = chain.push(node.args[0]);
        let own = file_binds(files, next);
        assert(nodes_binds(files, chain, nodes) == own + others);
        if chain.len() == 8 || files(next) is None {
            assert(own =~= Seq::empty());
        } else {
            assert(own == nodes_binds(files, next, document(files(next)->0)));
        }
    } else if node.name != "binds"@ {
        assert(nodes_binds(files, chain, nodes) == Seq::<BindView>::empty() + others);
    }
}

/// What binds say is their own keys, actions and arguments, in order.
pub proof fn law_binds_say_what_they_hold(binds: Binds, i: int, k: int)
    requires
        0 <= i < binds.0@.len(),
    ensures
        binds.says().len() == binds.0@.len(),
        binds.says()[i].keys == binds.0@[i].keys@,
        binds.says()[i].action == binds.0@[i].action@,
        binds.says()[i].args.len() == binds.0@[i].args@.len(),
        0 <= k < binds.0@[i].args@.len() ==> binds.says()[i].args[k] == binds.0@[i].args@[k]@,
{
}

/// What `NIRI_CONFIG` says counts whatever else there is. Failing that, the file in the user's own
/// directory does, where it's there, which `HOME` leads to only where `XDG_CONFIG_HOME` isn't set. The
/// system's file comes last, where it's there, and only for a user that has a directory at all.
pub proof fn law_own_config_comes_first(
    config_home: Option<bool>,
    home: Option<bool>,
    system_exists: bool,
)
    ensures
        config_at(true, config_home, home, system_exists) == Some(ConfigPath::Given),
        config_home == Some(true) ==> config_at(false, config_home, home, system_exists) == Some(
            ConfigPath::ConfigHome,
        ),
        config_home is None && home == Some(true) ==> config_at(
            false,
            config_home,
            home,
            system_exists,
        ) == Some(ConfigPath::Home),
        config_home == Some(false) || (config_home is None && home == Some(false)) ==> config_at(
            false,
            config_home,
            home,
            true,
        ) == Some(ConfigPath::System) && config_at(false, config_home, home, false) is None,
        config_home is None && home is None ==> config_at(false, config_home, home, system_exists)
            is None,
{
}

} // verus!
