use discorhdd::bridge::{check_attachment_size, BridgeError, ChatServiceBridge, Messages};
use discorhdd::config::Config;
use discorhdd::discord_drive::{fit_chunk, ChunkManager, DiscordDrive, DriveError};
use discorhdd::layout::zero_bytes;
use discorhdd::test_bridge::{test_config, TestBridge};

const M: usize = 1_000_000;

#[test]
fn main_tests() {
    let mut chunk_man = ChunkManager::new(1_000);
    chunk_man.save_to_file = false;
    let mut discord_drive = DiscordDrive::<TestBridge>::new(test_config()).unwrap();

    assert_eq!(
        chunk_man.read(0, 10, &mut discord_drive).unwrap(),
        vec![0; 10]
    );
    assert_eq!(
        chunk_man.read(0, 1_005, &mut discord_drive).unwrap(),
        vec![0; 1_005]
    );
    chunk_man.write(0, &[1; 7], &mut discord_drive).unwrap();
    assert_eq!(
        chunk_man.read(0, 10, &mut discord_drive).unwrap(),
        vec![1, 1, 1, 1, 1, 1, 1, 0, 0, 0]
    );
    chunk_man.write(16, &[1; 1024], &mut discord_drive).unwrap();
    assert_eq!(
        chunk_man.read(16, 1024, &mut discord_drive).unwrap(),
        vec![1; 1024]
    );
}

/// A service that is always down.
struct DownBridge;

impl ChatServiceBridge for DownBridge {
    const MAX_FILE_SIZE: usize = 4;

    fn messages(&self) -> Messages {
        unreachable!("the messages are a model of the service, never computed")
    }

    fn new(_token: &str, _channel: u64) -> Result<Self, BridgeError> {
        Ok(DownBridge)
    }

    fn send_message(&mut self, _content: &[u8]) -> Result<u64, BridgeError> {
        Err(BridgeError::Service("down".to_string()))
    }

    fn get_message(&self, _id: u64) -> Result<Vec<u8>, BridgeError> {
        Err(BridgeError::Service("down".to_string()))
    }
}

#[test]
fn chunk_indexes_cover_start_to_end() {
    let cm = ChunkManager::new(10);
    assert_eq!(cm.get_chunk_indexes::<TestBridge>(0, 10), vec![0]);
    assert_eq!(cm.get_chunk_indexes::<TestBridge>(999_999, 2), vec![0, 1]);
    // the chunk of `start + len` is counted, even where no byte of it is read
    assert_eq!(cm.get_chunk_indexes::<TestBridge>(0, M), vec![0, 1]);
    assert_eq!(cm.get_chunk_indexes::<TestBridge>(2 * M + 5, 0), vec![2]);
    assert_eq!(cm.get_chunk_indexes::<DownBridge>(3, 6), vec![0, 1, 2]);
}

#[test]
fn fresh_manager_reads_zeros() {
    let cm = ChunkManager::new(3);
    assert_eq!(cm.chunk_table(), &vec![None, None, None]);
    let mut drive = DiscordDrive::<TestBridge>::new(test_config()).unwrap();
    assert_eq!(cm.read(M - 3, 6, &mut drive).unwrap(), vec![0; 6]);
    assert_eq!(cm.read(5, 0, &mut drive).unwrap(), Vec::<u8>::new());
}

#[test]
fn read_after_write_across_chunks() {
    let mut cm = ChunkManager::new(4);
    let mut drive = DiscordDrive::<TestBridge>::new(test_config()).unwrap();
    let data: Vec<u8> = (0..10u8).collect();
    cm.write(M - 4, &data, &mut drive).unwrap();
    assert_eq!(cm.read(M - 4, 10, &mut drive).unwrap(), data);
    // the bytes around the write are unchanged
    assert_eq!(
        cm.read(M - 6, 14, &mut drive).unwrap(),
        vec![0, 0, 0, 1, 2, 3, 4, 5, 6, 7, 8, 9, 0, 0]
    );
    // both chunks were uploaded as messages 0 and 1; the others stay empty
    assert_eq!(cm.chunk_table(), &vec![Some(0), Some(1), None, None]);
    // a later write replaces the chunk by a new message
    cm.write(M + 1, &[7, 7], &mut drive).unwrap();
    assert_eq!(cm.chunk_table(), &vec![Some(0), Some(2), None, None]);
    assert_eq!(
        cm.read(M - 1, 5, &mut drive).unwrap(),
        vec![3, 4, 7, 7, 7]
    );
}

#[test]
fn empty_write_reuploads_the_chunk() {
    let mut cm = ChunkManager::new(2);
    let mut drive = DiscordDrive::<TestBridge>::new(test_config()).unwrap();
    cm.write(3, &[], &mut drive).unwrap();
    assert_eq!(cm.chunk_table(), &vec![Some(0), None]);
    assert_eq!(cm.read(0, 8, &mut drive).unwrap(), vec![0; 8]);
}

#[test]
fn upload_then_download_round_trip() {
    let mut drive = DiscordDrive::<TestBridge>::new(test_config()).unwrap();
    let bytes: Vec<u8> = (0..(2 * M + M / 2)).map(|i| (i % 251) as u8).collect();
    let ids = drive.upload_bytes(&bytes).unwrap();
    assert_eq!(ids, vec![0, 1, 2]);
    assert_eq!(drive.download_bytes(&ids).unwrap(), bytes);
    assert_eq!(drive.upload_bytes(&[]).unwrap(), Vec::<u64>::new());
    assert_eq!(drive.download_bytes(&[]).unwrap(), Vec::<u8>::new());
    assert_eq!(drive.download_bytes(&[2, 0]).unwrap().len(), M / 2 + M);
}

#[test]
fn unknown_message_reads_as_zero_chunk() {
    let bridge = TestBridge::new("", 0).unwrap();
    assert_eq!(bridge.get_message(5).unwrap(), vec![0; M]);
}

#[test]
fn test_bridge_numbers_messages() {
    let mut bridge = TestBridge::new("token", 7).unwrap();
    assert_eq!(bridge.send_message(&[1, 2]).unwrap(), 0);
    assert_eq!(bridge.send_message(&[3]).unwrap(), 1);
    assert_eq!(bridge.get_message(0).unwrap(), vec![1, 2]);
    assert_eq!(bridge.get_message(1).unwrap(), vec![3]);
}

#[test]
fn too_long_chunk_is_an_error() {
    let mut bridge = TestBridge::new("", 0).unwrap();
    bridge.send_message(&vec![9; M + 1]).unwrap();
    let mut drive = DiscordDrive::from_bridge(bridge);
    let cm = ChunkManager::from_table(vec![Some(0), None], false);
    assert_eq!(cm.read(0, 4, &mut drive), Err(DriveError::ChunkTooLong));
    // a chunk that was never uploaded is not asked for
    assert_eq!(cm.read(M, 4, &mut drive).unwrap(), vec![0; 4]);
}

#[test]
fn short_message_is_padded() {
    let mut bridge = TestBridge::new("", 0).unwrap();
    bridge.send_message(&[5, 6]).unwrap();
    let mut drive = DiscordDrive::from_bridge(bridge);
    let cm = ChunkManager::from_table(vec![Some(0)], true);
    assert_eq!(cm.read(0, 4, &mut drive).unwrap(), vec![5, 6, 0, 0]);
}

fn down() -> DriveError {
    DriveError::Bridge(BridgeError::Service("down".to_string()))
}

#[test]
fn service_failure_is_reported() {
    let mut drive = DiscordDrive::<DownBridge>::new(Config::default()).unwrap();
    let mut cm = ChunkManager::from_table(vec![None, Some(3)], false);
    // reading chunks that were never uploaded asks nothing of the service
    assert_eq!(cm.read(0, 3, &mut drive).unwrap(), vec![0; 3]);
    // a read that ends at a chunk boundary reaches into the next chunk too
    assert_eq!(cm.read(0, 4, &mut drive), Err(down()));
    assert_eq!(cm.read(2, 4, &mut drive), Err(down()));
    assert_eq!(cm.write(0, &[1, 2], &mut drive), Err(down()));
    // a failed write leaves the table as it was
    assert_eq!(cm.chunk_table(), &vec![None, Some(3)]);
    assert_eq!(drive.upload_bytes(&[1]), Err(down()));
}

#[test]
fn attachment_size_limit() {
    assert_eq!(check_attachment_size(10, 10), Ok(()));
    assert_eq!(check_attachment_size(11, 10), Err(BridgeError::TooLarge));
    assert_eq!(check_attachment_size(0, 0), Ok(()));
}

#[test]
fn configs() {
    let c = Config::default();
    assert_eq!(c.token, "");
    assert_eq!(c.channel, 0);
    let t = test_config();
    assert_eq!(t.token, "");
    assert_eq!(t.channel, 0);
}

#[test]
fn chunk_table_file_path() {
    assert_eq!(ChunkManager::get_file_path(), "/etc/discorhdd/chunks.json");
}

#[test]
fn new_manager_saves_by_default() {
    let cm = ChunkManager::new(2);
    assert!(cm.save_to_file);
    let cm = ChunkManager::from_table(vec![Some(4)], false);
    assert!(!cm.save_to_file);
    assert_eq!(cm.chunk_table(), &vec![Some(4)]);
}

#[test]
fn zero_bytes_are_zero() {
    assert_eq!(zero_bytes(3), vec![0, 0, 0]);
    assert_eq!(zero_bytes(0), Vec::<u8>::new());
}

#[test]
fn set_save_to_file_keeps_table() {
    let mut cm = ChunkManager::from_table(vec![Some(2), None], true);
    cm.set_save_to_file(false);
    assert!(!cm.save_to_file);
    assert_eq!(cm.chunk_table(), &vec![Some(2), None]);
}

#[test]
fn empty_upload_sends_nothing() {
    let mut drive = DiscordDrive::<TestBridge>::new(test_config()).unwrap();
    assert_eq!(drive.upload_bytes(&[]).unwrap(), Vec::<u64>::new());
    // no message 0 exists: it reads as a chunk of zero bytes
    assert_eq!(drive.download_bytes(&[0]).unwrap(), vec![0; M]);
    assert_eq!(drive.upload_bytes(&[4]).unwrap(), vec![0]);
    assert_eq!(drive.download_bytes(&[0]).unwrap(), vec![4]);
}

#[test]
fn second_write_overrides_first() {
    let mut cm = ChunkManager::new(2);
    let mut drive = DiscordDrive::<TestBridge>::new(test_config()).unwrap();
    cm.write(M - 2, &[1, 2, 3, 4], &mut drive).unwrap();
    cm.write(M - 2, &[5, 6, 7, 8], &mut drive).unwrap();
    assert_eq!(
        cm.read(M - 3, 6, &mut drive).unwrap(),
        vec![0, 5, 6, 7, 8, 0]
    );
}

#[test]
fn writing_back_read_bytes_changes_nothing() {
    let mut cm = ChunkManager::new(2);
    let mut drive = DiscordDrive::<TestBridge>::new(test_config()).unwrap();
    cm.write(10, &[9, 8, 7], &mut drive).unwrap();
    let before = cm.read(0, 20, &mut drive).unwrap();
    let held = cm.read(9, 5, &mut drive).unwrap();
    cm.write(9, &held, &mut drive).unwrap();
    assert_eq!(cm.read(0, 20, &mut drive).unwrap(), before);
    // the chunk was uploaded again as a new message
    assert_eq!(cm.chunk_table(), &vec![Some(1), None]);
}

#[test]
fn fit_chunk_pads_or_refuses() {
    assert_eq!(fit_chunk(vec![1, 2], 4), Ok(vec![1, 2, 0, 0]));
    assert_eq!(fit_chunk(vec![1, 2, 3, 4], 4), Ok(vec![1, 2, 3, 4]));
    assert_eq!(fit_chunk(vec![1, 2, 3, 4, 5], 4), Err(DriveError::ChunkTooLong));
    assert_eq!(fit_chunk(vec![], 2), Ok(vec![0, 0]));
}

/// A service that keeps its messages in memory and fails every send after
/// the first one.
struct TiredBridge {
    data: Vec<Vec<u8>>,
}

impl ChatServiceBridge for TiredBridge {
    const MAX_FILE_SIZE: usize = 4;

    fn messages(&self) -> Messages {
        unreachable!("the messages are a model of the service, never computed")
    }

    fn new(_token: &str, _channel: u64) -> Result<Self, BridgeError> {
        Ok(TiredBridge { data: Vec::new() })
    }

    fn send_message(&mut self, content: &[u8]) -> Result<u64, BridgeError> {
        if self.data.is_empty() {
            self.data.push(content.to_vec());
            Ok(0)
        } else {
            Err(BridgeError::Service("tired".to_string()))
        }
    }

    fn get_message(&self, id: u64) -> Result<Vec<u8>, BridgeError> {
        self.data
            .get(id as usize)
            .cloned()
            .ok_or(BridgeError::Service("missing".to_string()))
    }
}

#[test]
fn failed_upload_keeps_the_chunks_after_it() {
    let mut drive = DiscordDrive::<TiredBridge>::new(Config::default()).unwrap();
    let mut cm = ChunkManager::new(3);
    // chunks 0 and 1 are touched; the second upload fails
    assert_eq!(
        cm.write(2, &[7, 7, 7], &mut drive),
        Err(DriveError::Bridge(BridgeError::Service("tired".to_string())))
    );
    assert_eq!(cm.chunk_table(), &vec![Some(0), None, None]);
    assert_eq!(cm.read(0, 3, &mut drive).unwrap(), vec![0, 0, 7]);
}
