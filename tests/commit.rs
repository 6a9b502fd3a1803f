use git_traverse::ancestors::{ancestors_of, Ancestors, Error, Parents};
use git_traverse::id::ObjectId;
use git_traverse::state::{CommitInfo, Sorting, State};
use std::cell::Cell;

fn hex_to_id(hex: &str) -> ObjectId {
    let mut bytes = [0u8; 20];
    for (i, b) in bytes.iter_mut().enumerate() {
        *b = u8::from_str_radix(&hex[2 * i..2 * i + 2], 16).unwrap();
    }
    ObjectId::from_bytes(bytes)
}

type Graph = Vec<(ObjectId, Vec<ObjectId>, i64)>;

fn graph(edges: &[(&str, &[&str], i64)]) -> Graph {
    edges
        .iter()
        .map(|(id, parents, time)| (hex_to_id(id), parents.iter().map(|p| hex_to_id(p)).collect(), *time))
        .collect()
}

fn lookup(g: &Graph, id: &ObjectId) -> Option<CommitInfo> {
    g.iter()
        .find(|(c, _, _)| c == id)
        .map(|(_, parents, time)| CommitInfo { parents: parents.clone(), time: *time })
}

/// The history of a repository with a branch merged back:
/// 01ec has parents efd9 and ce2e; ce2e -> 9152 -> 9556; efd9 -> 9556;
/// 9556 -> 17d7 -> 9902 -> 1343.
fn commits() -> Graph {
    graph(&[
        ("01ec18a3ebf2855708ad3c9d244306bc1fae3e9b", &["efd9a841189668f1bab5b8ebade9cd0a1b139a37", "ce2e8ffaa9608a26f7b21afc1db89cadb54fd353"], 80),
        ("efd9a841189668f1bab5b8ebade9cd0a1b139a37", &["9556057aee5abb06912922e9f26c46386a816822"], 70),
        ("ce2e8ffaa9608a26f7b21afc1db89cadb54fd353", &["9152eeee2328073cf23dcf8e90c949170b711659"], 60),
        ("9152eeee2328073cf23dcf8e90c949170b711659", &["9556057aee5abb06912922e9f26c46386a816822"], 50),
        ("9556057aee5abb06912922e9f26c46386a816822", &["17d78c64cef6c33a10a604573fd2c429e477fd63"], 40),
        ("17d78c64cef6c33a10a604573fd2c429e477fd63", &["9902e3c3e8f0c569b4ab295ddf473e6de763e1e7"], 30),
        ("9902e3c3e8f0c569b4ab295ddf473e6de763e1e7", &["134385f6d781b7e97062102c6a483440bfda2a03"], 20),
        ("134385f6d781b7e97062102c6a483440bfda2a03", &[], 10),
    ])
}

/// A merge whose second parent is newer than its first:
/// 288e has parents 9902 and bcb0, both with parent 1343.
fn commits_with_dates() -> Graph {
    graph(&[
        ("288e509293165cb5630d08f4185bdf2445bf6170", &["9902e3c3e8f0c569b4ab295ddf473e6de763e1e7", "bcb05040a6925f2ff5e10d3ae1f9264f2e8c43ac"], 5),
        ("9902e3c3e8f0c569b4ab295ddf473e6de763e1e7", &["134385f6d781b7e97062102c6a483440bfda2a03"], 3),
        ("bcb05040a6925f2ff5e10d3ae1f9264f2e8c43ac", &["134385f6d781b7e97062102c6a483440bfda2a03"], 4),
        ("134385f6d781b7e97062102c6a483440bfda2a03", &[], 1),
    ])
}

fn drain<F, P>(mut t: Ancestors<F, P>) -> Vec<Result<ObjectId, Error>>
where
    F: Fn(&ObjectId) -> Option<CommitInfo>,
    P: Fn(&ObjectId) -> bool,
{
    let mut out = Vec::new();
    while let Some(r) = t.next() {
        out.push(r);
    }
    out
}

fn expected(tips: &[&str], rest: &[&str]) -> Vec<Result<ObjectId, Error>> {
    tips.iter().chain(rest.iter()).map(|h| Ok(hex_to_id(h))).collect()
}

fn check(g: Graph, tips: &[&str], rest: &[&str], sorting: Sorting, mode: Parents) {
    let t = ancestors_of(tips.iter().map(|h| hex_to_id(h)).collect(), State::default(), move |id: &ObjectId| lookup(&g, id))
        .sorting(sorting)
        .mode(mode);
    assert_eq!(drain(t), expected(tips, rest));
}

fn check_with_predicate(g: Graph, tips: &[&str], rest: &[&str], predicate: impl Fn(&ObjectId) -> bool) {
    let t = Ancestors::filtered(
        tips.iter().map(|h| hex_to_id(h)).collect(),
        State::default(),
        move |id: &ObjectId| lookup(&g, id),
        predicate,
    );
    assert_eq!(drain(t), expected(tips, rest));
}

#[test]
fn linear_history_no_branch() {
    check(
        commits(),
        &["9556057aee5abb06912922e9f26c46386a816822"],
        &[
            "17d78c64cef6c33a10a604573fd2c429e477fd63",
            "9902e3c3e8f0c569b4ab295ddf473e6de763e1e7",
            "134385f6d781b7e97062102c6a483440bfda2a03",
        ],
        Sorting::default(),
        Parents::default(),
    );
}

#[test]
fn simple_branch_with_merge() {
    check(
        commits(),
        &["01ec18a3ebf2855708ad3c9d244306bc1fae3e9b"],
        &[
            "efd9a841189668f1bab5b8ebade9cd0a1b139a37",
            "ce2e8ffaa9608a26f7b21afc1db89cadb54fd353",
            "9556057aee5abb06912922e9f26c46386a816822",
            "9152eeee2328073cf23dcf8e90c949170b711659",
            "17d78c64cef6c33a10a604573fd2c429e477fd63",
            "9902e3c3e8f0c569b4ab295ddf473e6de763e1e7",
            "134385f6d781b7e97062102c6a483440bfda2a03",
        ],
        Sorting::default(),
        Parents::default(),
    );
}

#[test]
fn simple_branch_first_parent_only() {
    check(
        commits(),
        &["01ec18a3ebf2855708ad3c9d244306bc1fae3e9b"],
        &[
            "efd9a841189668f1bab5b8ebade9cd0a1b139a37",
            "9556057aee5abb06912922e9f26c46386a816822",
            "17d78c64cef6c33a10a604573fd2c429e477fd63",
            "9902e3c3e8f0c569b4ab295ddf473e6de763e1e7",
            "134385f6d781b7e97062102c6a483440bfda2a03",
        ],
        Sorting::default(),
        Parents::First,
    );
}

#[test]
fn multiple_tips() {
    check(
        commits(),
        &["01ec18a3ebf2855708ad3c9d244306bc1fae3e9b", "9556057aee5abb06912922e9f26c46386a816822"],
        &[
            "efd9a841189668f1bab5b8ebade9cd0a1b139a37",
            "ce2e8ffaa9608a26f7b21afc1db89cadb54fd353",
            "17d78c64cef6c33a10a604573fd2c429e477fd63",
            "9152eeee2328073cf23dcf8e90c949170b711659",
            "9902e3c3e8f0c569b4ab295ddf473e6de763e1e7",
            "134385f6d781b7e97062102c6a483440bfda2a03",
        ],
        Sorting::default(),
        Parents::default(),
    );
}

#[test]
fn filtered_commit_does_not_block_ancestors_reachable_from_another_commit() {
    let pruned = hex_to_id("9152eeee2328073cf23dcf8e90c949170b711659");
    check_with_predicate(
        commits(),
        &["01ec18a3ebf2855708ad3c9d244306bc1fae3e9b"],
        &[
            "efd9a841189668f1bab5b8ebade9cd0a1b139a37",
            "ce2e8ffaa9608a26f7b21afc1db89cadb54fd353",
            "9556057aee5abb06912922e9f26c46386a816822",
            "17d78c64cef6c33a10a604573fd2c429e477fd63",
            "9902e3c3e8f0c569b4ab295ddf473e6de763e1e7",
            "134385f6d781b7e97062102c6a483440bfda2a03",
        ],
        move |id| *id != pruned,
    );
}

#[test]
fn predicate_only_called_once_even_if_fork_point() {
    let fork = hex_to_id("9556057aee5abb06912922e9f26c46386a816822");
    let seen = Cell::new(false);
    check_with_predicate(
        commits(),
        &["01ec18a3ebf2855708ad3c9d244306bc1fae3e9b"],
        &[
            "efd9a841189668f1bab5b8ebade9cd0a1b139a37",
            "ce2e8ffaa9608a26f7b21afc1db89cadb54fd353",
            "9152eeee2328073cf23dcf8e90c949170b711659",
        ],
        move |id| {
            if *id == fork {
                assert!(!seen.get());
                seen.set(true);
                false
            } else {
                true
            }
        },
    );
}

#[test]
fn graph_sorted_commits() {
    check(
        commits_with_dates(),
        &["288e509293165cb5630d08f4185bdf2445bf6170"],
        &[
            "9902e3c3e8f0c569b4ab295ddf473e6de763e1e7",
            "bcb05040a6925f2ff5e10d3ae1f9264f2e8c43ac",
            "134385f6d781b7e97062102c6a483440bfda2a03",
        ],
        Sorting::default(),
        Parents::default(),
    );
}

#[test]
fn committer_date_sorted_commits() {
    check(
        commits_with_dates(),
        &["288e509293165cb5630d08f4185bdf2445bf6170"],
        &[
            "bcb05040a6925f2ff5e10d3ae1f9264f2e8c43ac",
            "9902e3c3e8f0c569b4ab295ddf473e6de763e1e7",
            "134385f6d781b7e97062102c6a483440bfda2a03",
        ],
        Sorting::ByCommitterDate,
        Parents::default(),
    );
}

#[test]
fn committer_date_sorted_commits_parents_only() {
    check(
        commits_with_dates(),
        &["288e509293165cb5630d08f4185bdf2445bf6170"],
        &["9902e3c3e8f0c569b4ab295ddf473e6de763e1e7", "134385f6d781b7e97062102c6a483440bfda2a03"],
        Sorting::ByCommitterDate,
        Parents::First,
    );
}
