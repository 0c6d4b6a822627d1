use range_downloader::chunk::Chunk;
use range_downloader::data_holder::DataHolder;
use range_downloader::digest::hash_to_string;
use range_downloader::manager::{Manager, ManagerError};
use range_downloader::manager_wrapper::{ManagerWrapper, TestManagerWrapper};
use range_downloader::managers::{BasicManager, RandomManager};
use range_downloader::server_simulator::{Server, ServerError};
use sha2::Digest;

#[test]
fn test_server_init() {
    let mut prev_data = Vec::new();

    for _ in 0..10 {
        let server = Server::new();
        assert_ne!(prev_data, server.data);

        prev_data = server.data;
    }
}

#[test]
fn server_simulator_test_server_init() {
    let mut prev_data = Vec::new();

    for _ in 0..10 {
        let server = Server::new();
        assert_ne!(prev_data, server.data);

        prev_data = server.data;
    }
}

#[test]
fn test_utils_test_server_init() {
    let mut prev_data = Vec::new();

    for _ in 0..10 {
        let server = Server::new();
        assert_ne!(prev_data, server.data);

        prev_data = server.data;
    }
}

#[test]
fn test_server_range_errors() {
    let server = Server::init(10);
    assert!(matches!(
        server.get_data_from_range((2, 30)),
        Err(ServerError::OutOfBounds(2, 30, 10))
    ));
    let ok = server.get_data_from_range((2, 8)).unwrap();
    assert!(1 <= ok.len() && ok.len() <= 6);
    assert_eq!(&ok[..], &server.data[2..2 + ok.len()]);
}

fn test_simulation<M: Manager>() -> String {
    let server = Server::init_with_lower_bound(50);

    let mut tm = TestManagerWrapper {
        mangaer: M::init(server.get_len()),
        server,
    };

    tm.send_request().unwrap();

    let dl = tm.server.get_len();

    println!("Data len: {}", dl);
    println!("Server data: {:?}", tm.server.data);
    println!("Recieved data: {:?}", tm.mangaer.get_data());

    assert_eq!(
        tm.server.data,
        tm.mangaer
            .get_data()
            .into_iter()
            .map(|val| { *val })
            .collect::<Vec<u8>>()
    );

    hash_to_string(tm.mangaer.move_data())
}

#[test]
fn test_basic() {
    test_simulation::<BasicManager>();
}

#[test]
fn test_radnom() {
    test_simulation::<RandomManager>();
}

#[test]
fn test_server() {
    for _ in 0..100 {
        let server = Server::init_with_lower_bound(50);

        let mut tm = TestManagerWrapper {
            mangaer: BasicManager::new(server.get_len()),
            server,
        };

        tm.send_request().unwrap();

        let dl = tm.server.get_len();

        println!("Data len: {}", dl);
        println!("Server data: {:?}", tm.server.data);
        println!("Recieved data: {:?}", tm.mangaer.data);

        assert_eq!(
            tm.server.data,
            tm.mangaer
                .get_data()
                .into_iter()
                .map(|val| { *val })
                .collect::<Vec<u8>>()
        );
    }
}

#[test]
fn test_server_basic() {
    for _ in 0..100 {
        let server = Server::init_with_lower_bound(50);

        let mut tm = TestManagerWrapper {
            mangaer: BasicManager::new(server.get_len()),
            server,
        };

        tm.send_request().unwrap();

        let dl = tm.server.get_len();

        println!("Data len: {}", dl);
        println!("Server data: {:?}", tm.server.data);
        println!("Recieved data: {:?}", tm.mangaer.data);

        assert_eq!(
            tm.server.data,
            tm.mangaer
                .get_data()
                .into_iter()
                .map(|val| { *val })
                .collect::<Vec<u8>>()
        );
    }
}

#[test]
fn test_server_random() {
    let server = Server::init_with_lower_bound(50);
    for _ in 0..100 {
        let server = server.clone();
        let mut tm = TestManagerWrapper {
            mangaer: RandomManager::new(server.get_len(), 10),
            server,
        };

        tm.send_request().unwrap();

        let dl = tm.server.get_len();

        println!("Data len: {}", dl);
        println!("Server data: {:?}", tm.server.data);
        println!("Recieved data: {:?}", tm.mangaer.data);

        assert!(
            tm.mangaer
                .filled_list
                .get_complement_intervals(
                    Chunk::new(0, tm.server.get_data_len()).expect("Chunk createiong")
                )
                .expect("complement intervals creation")
                .len()
                == 0
        );

        assert_eq!(
            tm.server.data,
            tm.mangaer
                .get_data()
                .into_iter()
                .map(|val| { *val })
                .collect::<Vec<u8>>()
        );
    }
}

#[test]
fn test_sequential_download_digest() {
    // A fixed 100-byte payload; the server truncates every reply randomly,
    // the sequential strategy still reassembles the exact payload.
    let payload: Vec<u8> = (0..100u8).map(|i| i.wrapping_mul(37).wrapping_add(11)).collect();
    let server = Server {
        data: payload.clone(),
        records: Vec::new(),
    };

    let tm = TestManagerWrapper {
        mangaer: BasicManager::new(100),
        server,
    };

    let assembled = tm.start().unwrap();
    assert_eq!(assembled, payload);

    let expected_hex: String = sha2::Sha256::digest(&payload)
        .iter()
        .map(|b| format!("{:02x}", b))
        .collect();
    assert_eq!(hash_to_string(assembled), expected_hex);
}

#[test]
fn test_random_download_digest() {
    let payload: Vec<u8> = (0..100u8).map(|i| i.wrapping_mul(53).wrapping_add(7)).collect();
    let server = Server {
        data: payload.clone(),
        records: Vec::new(),
    };

    let tm = TestManagerWrapper {
        mangaer: RandomManager::new(100, 6),
        server,
    };

    let assembled = tm.start().unwrap();
    assert_eq!(assembled, payload);
}

#[test]
fn test_manager_completion_signals() {
    let mut manager = BasicManager::new(10);
    let request = manager.request().unwrap();
    assert_eq!(request.len(), 1);
    assert_eq!((request[0].begin, request[0].end), (0, 10));

    // A strict prefix of the request leaves the download unfinished.
    assert_eq!(manager.receive(vec![1, 2, 3, 4], (0, 4)), Ok(()));
    assert!(!manager.ready());
    let request = manager.request().unwrap();
    assert_eq!((request[0].begin, request[0].end), (4, 10));

    // The closing fragment is reported as completion.
    assert_eq!(
        manager.receive(vec![5, 6, 7, 8, 9, 10], (4, 10)),
        Err(ManagerError::TheDataIsFilled)
    );
    assert!(manager.ready());
    assert!(matches!(manager.request(), Err(ManagerError::TheDataIsFilled)));
    assert_eq!(manager.get_data(), &vec![1, 2, 3, 4, 5, 6, 7, 8, 9, 10]);
}
