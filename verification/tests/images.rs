use blog_core::images::{Error, Filename, ImagePathBuf};
use std::path::PathBuf;

#[test]
fn can_cast_filename() {
    let foo = "foo";
    let filename = Filename::unchecked_from_str(foo);

    assert_eq!(filename, foo);
}

#[test]
fn validates_extension() {
    let foo = "foo";
    let result = Filename::new_with_extension(foo);

    assert!(matches!(result, Err(Error::InvalidExtension)));
}

#[test]
fn validates_extension_with_ending_dot() {
    let foo = "foo.";
    let result = Filename::new_with_extension(foo);

    assert!(matches!(result, Err(Error::InvalidExtension)));
}

#[test]
fn validates_parent() {
    let foo = "foo/bar";
    let result = Filename::new_with_extension(foo);

    assert!(matches!(result, Err(Error::HasParent)));
}

#[test]
fn accepts_name_with_extension() {
    let (filename, ext) = Filename::new_with_extension("photo.png").unwrap();
    assert_eq!(filename, "photo.png");
    assert_eq!(filename.as_str(), "photo.png");
    assert_eq!(ext, "png");
}

#[test]
fn extension_follows_the_last_dot() {
    let (filename, ext) = Filename::new_with_extension("archive.tar.gz").unwrap();
    assert_eq!(filename.to_string(), "archive.tar.gz");
    assert_eq!(ext, "gz");
}

#[test]
fn leading_dot_names_are_accepted() {
    let (filename, ext) = Filename::new_with_extension(".png").unwrap();
    assert_eq!(filename, ".png");
    assert_eq!(ext, "png");
}

#[test]
fn extension_of_non_ascii_name() {
    let (filename, ext) = Filename::new_with_extension("фото.jpeg").unwrap();
    assert_eq!(filename, "фото.jpeg");
    assert_eq!(ext, "jpeg");
    let (_, ext) = Filename::new_with_extension("图片.тиф").unwrap();
    assert_eq!(ext, "тиф");
}

#[test]
fn dot_names_and_empty_name_are_refused() {
    assert!(matches!(Filename::new_with_extension(""), Err(Error::InvalidExtension)));
    assert!(matches!(Filename::new_with_extension("."), Err(Error::InvalidExtension)));
    assert!(matches!(Filename::new_with_extension(".."), Err(Error::InvalidExtension)));
    assert!(matches!(Filename::new_with_extension("a.b."), Err(Error::InvalidExtension)));
}

#[test]
fn parent_is_refused_before_extension() {
    assert!(matches!(Filename::new_with_extension("dir/file"), Err(Error::HasParent)));
    assert!(matches!(Filename::new_with_extension("a/b."), Err(Error::HasParent)));
    assert!(matches!(Filename::new_with_extension("/x.png"), Err(Error::HasParent)));
}

#[test]
fn filename_compares_with_str() {
    let filename = Filename::unchecked_from_str("a.png");
    assert!(filename == "a.png");
    assert!(filename != "b.png");
    assert!(filename != "a.pn");
}

#[test]
fn image_path_is_directory_joined_with_name() {
    let (filename, _) = Filename::new_with_extension("photo.png").unwrap();
    let path = ImagePathBuf::new(PathBuf::from("/srv/images"), &filename);
    assert_eq!(path.file_name(), "photo.png");
    assert_eq!(path.parent_dir(), &PathBuf::from("/srv/images"));
    assert_eq!(path.to_path_buf(), PathBuf::from("/srv/images/photo.png"));
    assert_eq!(path.to_path_buf().parent(), Some(PathBuf::from("/srv/images").as_path()));
}
