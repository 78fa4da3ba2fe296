use bitturbulence::context::TorrentCtx;
use bitturbulence::meta::{FileEntry, Metainfo};
use bitturbulence::scheduler::BLOCK_SIZE;
use bitturbulence::state::{record_flows, DownloadState, Flow, FlowStatus, StateEntry};

fn entry(id: &str, state: DownloadState) -> StateEntry {
    StateEntry { id: id.to_string(), name: format!("the {id}"), downloaded: 1, peers: 1, state }
}

fn flow(id: &str, downloaded: u64, peers: usize, complete: bool) -> Flow {
    Flow { id: id.to_string(), status: FlowStatus { downloaded, peers, complete } }
}

#[test]
fn figures_are_recorded() {
    let mut entries = vec![
        entry("a", DownloadState::Downloading),
        entry("b", DownloadState::Downloading),
    ];
    let done = record_flows(&mut entries, &[flow("b", 500, 3, false)]);
    assert!(done.is_empty());
    assert_eq!((entries[0].downloaded, entries[0].peers), (1, 1));
    assert_eq!((entries[1].downloaded, entries[1].peers), (500, 3));
    assert_eq!((entries[1].id.as_str(), entries[1].name.as_str()), ("b", "the b"));
    assert_eq!(entries[1].state, DownloadState::Downloading);
}

#[test]
fn complete_download_turns_to_seeding() {
    let mut entries = vec![entry("a", DownloadState::Downloading)];
    assert_eq!(record_flows(&mut entries, &[flow("a", 9, 0, true)]), vec![0]);
    assert_eq!(entries[0].state, DownloadState::Seeding);
    assert!(record_flows(&mut entries, &[flow("a", 9, 0, true)]).is_empty());
    assert!(record_flows(&mut entries, &[flow("a", 9, 0, false)]).is_empty());
    assert_eq!(entries[0].state, DownloadState::Seeding);
}

#[test]
fn other_states_are_left_alone() {
    let mut entries = vec![entry("a", DownloadState::Other(3))];
    assert!(record_flows(&mut entries, &[flow("a", 9, 2, true)]).is_empty());
    assert_eq!(entries[0].state, DownloadState::Other(3));
    assert_eq!((entries[0].downloaded, entries[0].peers), (9, 2));
}

#[test]
fn flow_without_entry_is_passed_over() {
    let mut entries = vec![entry("a", DownloadState::Downloading)];
    assert!(record_flows(&mut entries, &[flow("x", 9, 2, true)]).is_empty());
    assert_eq!(entries[0].downloaded, 1);
    assert!(record_flows(&mut Vec::new(), &[flow("x", 9, 2, true)]).is_empty());
}

#[test]
fn status_of_a_download() {
    let meta = Metainfo {
        info_hash: [0; 32],
        files: vec![FileEntry {
            piece_length: BLOCK_SIZE,
            last_piece_length: 10,
            piece_hashes: vec![[0; 32]; 2],
        }],
    };
    let mut ctx = TorrentCtx::new(meta, &[2], true);
    ctx.peer_connected();
    assert_eq!(ctx.status(), FlowStatus { downloaded: 0, peers: 1, complete: true });
}
