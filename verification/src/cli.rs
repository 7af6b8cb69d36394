//! What the command line asks for.
use crate::text::{same_text, texts};
use vstd::prelude::*;

verus! {

/// What the program is to do.
pub enum Invocation {
    WireguardKeypair,
    RealityKeypair,
    /// Say how keys are generated, and fail.
    Usage,
    /// Serve what the file at this path sets up.
    Serve(String),
}

/// Whether the word at `i` is `-c` with another word behind it.
pub open spec fn names_file(args: Seq<Seq<char>>, i: int) -> bool {
    1 <= i < args.len() - 1 && args[i] == "-c"@
}

/// Whether `path` is the path that the words give: the word behind the first `-c` that
/// has one, else `config.toml`. The word that names the program does not count.
pub open spec fn is_config_path(args: Seq<Seq<char>>, path: Seq<char>) -> bool {
    if exists|i: int| names_file(args, i) {
        exists|i: int|
            {
                &&& #[trigger] names_file(args, i)
                &&& forall|j: int| 0 <= j < i ==> !#[trigger] names_file(args, j)
                &&& path == args[i + 1]
            }
    } else {
        path == "config.toml"@
    }
}

/// The path of the configuration file.
pub fn parse_config_arg(args: &Vec<String>) -> (r: String)
    ensures
        is_config_path(texts(args@), r@),
{
    let ghost words = texts(args@);
    let mut i: usize = 1;
    while i < args.len()
        invariant
            words == texts(args@),
            1 <= i,
            forall|j: int| 0 <= j < i ==> !#[trigger] names_file(words, j),
        decreases args@.len() - i,
    {
        if same_text(args[i].as_str(), "-c") && i + 1 < args.len() {
            assert(names_file(words, i as int));
            return args[i + 1].as_str().to_owned();
        }
        i = i + 1;
    }
    assert forall|j: int| !#[trigger] names_file(words, j) by {
        if 0 <= j < i {
        }
    }
    "config.toml".to_owned()
}

/// What the words of the command line ask for.
pub open spec fn asks_for(args: Seq<Seq<char>>, r: Invocation) -> bool {
    if args.len() > 1 && args[1] == "generate"@ {
        if args.len() > 2 && args[2] == "wireguard-keypair"@ {
            r is WireguardKeypair
        } else if args.len() > 2 && args[2] == "reality-keypair"@ {
            r is RealityKeypair
        } else {
            r is Usage
        }
    } else {
        r matches Invocation::Serve(path) && is_config_path(args, path@)
    }
}

/// What the words of the command line ask for.
pub fn parse_args(args: &Vec<String>) -> (r: Invocation)
    ensures
        asks_for(texts(args@), r),
{
    if args.len() > 1 && same_text(args[1].as_str(), "generate") {
        if args.len() > 2 && same_text(args[2].as_str(), "wireguard-keypair") {
            Invocation::WireguardKeypair
        } else if args.len() > 2 && same_text(args[2].as_str(), "reality-keypair") {
            Invocation::RealityKeypair
        } else {
            Invocation::Usage
        }
    } else {
        Invocation::Serve(parse_config_arg(args))
    }
}

/// The file is the word behind the first `-c`, whatever follows it; a `-c` at the very end
/// names none, and without one the file is `config.toml`.
pub proof fn lemma_config_path(
    program: Seq<char>,
    before: Seq<Seq<char>>,
    file: Seq<char>,
    after: Seq<Seq<char>>,
    path: Seq<char>,
)
    requires
        !before.contains("-c"@),
    ensures
        is_config_path(seq![program] + before + seq!["-c"@, file] + after, path) <==> path == file,
        is_config_path(seq![program] + before, path) <==> path == "config.toml"@,
        is_config_path(seq![program] + before + seq!["-c"@], path) <==> path == "config.toml"@,
{
    let args = seq![program] + before + seq!["-c"@, file] + after;
    let at = 1 + before.len() as int;
    assert forall|i: int| 0 <= i < at implies !#[trigger] names_file(args, i) by {
        if i > 0 {
            assert(args[i] == before[i - 1]);
            assert(before.contains(before[i - 1]));
        }
    }
    assert(args[at] == "-c"@ && args[at + 1] == file);
    assert(names_file(args, at));
    let plain = seq![program] + before;
    let cut = seq![program] + before + seq!["-c"@];
    assert forall|i: int| !#[trigger] names_file(plain, i) && !#[trigger] names_file(cut, i) by {
        if 1 <= i < at {
            assert(plain[i] == before[i - 1]);
            assert(cut[i] == before[i - 1]);
            assert(before.contains(before[i - 1]));
        }
    }
    if is_config_path(args, path) {
        let i = choose|i: int|
            {
                &&& #[trigger] names_file(args, i)
                &&& forall|j: int| 0 <= j < i ==> !#[trigger] names_file(args, j)
                &&& path == args[i + 1]
            };
        assert(i == at);
    }
}

/// The word `generate` asks for keys: of WireGuard or of Reality by the word behind it, and
/// with any other word, or none, for how to ask. Every other first word serves.
pub proof fn lemma_what_is_asked(
    program: Seq<char>,
    word: Seq<char>,
    rest: Seq<Seq<char>>,
    r: Invocation,
)
    ensures
        asks_for(seq![program, "generate"@, "wireguard-keypair"@] + rest, r) <==> r
            is WireguardKeypair,
        asks_for(seq![program, "generate"@, "reality-keypair"@] + rest, r) <==> r is RealityKeypair,
        word != "wireguard-keypair"@ && word != "reality-keypair"@ ==> (asks_for(
            seq![program, "generate"@, word] + rest,
            r,
        ) <==> r is Usage),
        asks_for(seq![program, "generate"@], r) <==> r is Usage,
        word != "generate"@ && asks_for(seq![program, word] + rest, r) ==> r is Serve,
        asks_for(seq![program], r) ==> r is Serve,
{
    reveal_strlit("wireguard-keypair");
    reveal_strlit("reality-keypair");
    assert("wireguard-keypair"@.len() != "reality-keypair"@.len());
}

} // verus!
