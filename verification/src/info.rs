use vstd::prelude::*;
use vstd::string::StringExecFns;

verus! {

/// Where one processed image's artifacts are written: the directory that
/// holds them and the image's base name.
pub struct ImageInfo {
    pub image_dir: String,
    pub name: String,
}

impl ImageInfo {
    pub fn new(image_dir: String, name: String) -> (r: ImageInfo)
        ensures
            r.image_dir@ == image_dir@,
            r.name@ == name@,
    {
        ImageInfo { image_dir, name }
    }

    /// The output path `<dir>/<name>_<postfix>.<ext>` of one artifact.
    pub fn save_path_concat(&self, postfix: &str, ext: &str) -> (r: String)
        ensures
            r@ == self.image_dir@ + "/"@ + self.name@ + "_"@ + postfix@ + "."@ + ext@,
    {
        let mut s = self.image_dir.clone();
        s.append("/");
        s.append(self.name.as_str());
        s.append("_");
        s.append(postfix);
        s.append(".");
        s.append(ext);
        s
    }
}

} // verus!
