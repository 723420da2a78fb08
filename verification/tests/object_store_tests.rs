use std::sync::Arc;

use bytes::Bytes;
use kisekifs::slice::make_slice_object_key;
use object_store::memory::InMemory;
use object_store::path::Path;
use object_store::ObjectStore;
use tokio::io::AsyncWriteExt;

#[test]
fn object_storage_basic() {
    let runtime = tokio::runtime::Runtime::new().unwrap();
    runtime.block_on(async {
        let object_sto: Arc<dyn ObjectStore> = Arc::new(InMemory::new());

        let bytes = Bytes::from_static(b"hello");
        let path = Path::parse("data/large_file").unwrap();
        object_sto.put(&path, bytes).await.unwrap();

        let bytes = object_sto.get(&path).await.unwrap();
        let result = bytes.bytes().await.unwrap();
        assert_eq!(result.as_ref(), b"hello".as_slice());

        let path = Path::parse("data/large_file_multipart").unwrap();
        let (_id, mut writer) = object_sto.put_multipart(&path).await.unwrap();
        let bytes = Bytes::from_static(b"hello");
        writer.write_all(&bytes).await.unwrap();
        writer.flush().await.unwrap();
        writer.shutdown().await.unwrap();

        let key = make_slice_object_key(1_234_567, 3, 5);
        assert_eq!(key, "chunks/1/1234/1234567_3_5");
        let path = Path::parse(key).unwrap();
        object_sto.put(&path, Bytes::from_static(b"hello")).await.unwrap();
        let result = object_sto.get(&path).await.unwrap().bytes().await.unwrap();
        assert_eq!(result.as_ref(), b"hello".as_slice());
    });
}

#[test]
fn blocks_are_found_again_under_their_keys() {
    let runtime = tokio::runtime::Runtime::new().unwrap();
    runtime.block_on(async {
        let store: Arc<dyn ObjectStore> = Arc::new(InMemory::new());
        let full = Path::parse(make_slice_object_key(7, 0, 4194304)).unwrap();
        let short = Path::parse(make_slice_object_key(7, 1, 5)).unwrap();
        store.put(&full, Bytes::from(vec![1u8; 16])).await.unwrap();
        store.put(&short, Bytes::from_static(b"hello")).await.unwrap();
        let got = store.get(&short).await.unwrap().bytes().await.unwrap();
        assert_eq!(got.as_ref(), b"hello".as_slice());
        let other = Path::parse(make_slice_object_key(7, 2, 5)).unwrap();
        let missing = store.get(&other).await.err().unwrap();
        assert!(matches!(missing, object_store::Error::NotFound { .. }));
    });
}
