use rwatch::disk::{is_root_mount_point, root_disk};

#[test]
fn root_is_recognised_by_components() {
    assert!(is_root_mount_point(b"/"));
    assert!(is_root_mount_point(b"//"));
    assert!(is_root_mount_point(b"/./"));
    assert!(is_root_mount_point(b"/."));
    assert!(!is_root_mount_point(b""));
    assert!(!is_root_mount_point(b"."));
    assert!(!is_root_mount_point(b"/.."));
    assert!(!is_root_mount_point(b"/boot"));
    assert!(!is_root_mount_point(b"/.x"));
    for p in ["/", "//", "/./", "/.", "", ".", "/..", "/boot", "/.x", "/./.", "/..."] {
        assert_eq!(
            is_root_mount_point(p.as_bytes()),
            std::path::Path::new(p) == std::path::Path::new("/"),
            "{p}"
        );
    }
}

#[test]
fn first_root_disk_is_chosen() {
    let mounts = vec![b"/boot".to_vec(), b"/".to_vec(), b"//".to_vec()];
    assert_eq!(root_disk(&mounts), Some(1));
    let mounts = vec![b"/boot".to_vec(), b"/home".to_vec()];
    assert_eq!(root_disk(&mounts), None);
    assert_eq!(root_disk(&[]), None);
}
