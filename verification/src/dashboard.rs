//! The summaries of pipelines and tasks that the dashboard shows.
use vstd::prelude::*;

verus! {

/// A pipeline as the dashboard lists it.
#[derive(Debug, Clone)]
pub struct PipelineDto {
    pub id: String,
    pub name: String,
    pub status: String,
    pub progress: String,
}

/// A task as the dashboard lists it.
#[derive(Debug, Clone)]
pub struct TaskDto {
    pub id: String,
    pub name: String,
    pub status: String,
    pub dependencies: Vec<String>,
}

/// The mathematical value of a [`PipelineDto`]: id, name, status, progress.
pub type PipelineDtoView = (Seq<char>, Seq<char>, Seq<char>, Seq<char>);

/// The mathematical value of a [`TaskDto`]: id, name, status, dependencies.
pub type TaskDtoView = (Seq<char>, Seq<char>, Seq<char>, Seq<Seq<char>>);

impl View for PipelineDto {
    type V = PipelineDtoView;

    open spec fn view(&self) -> PipelineDtoView {
        (self.id@, self.name@, self.status@, self.progress@)
    }
}

impl View for TaskDto {
    type V = TaskDtoView;

    open spec fn view(&self) -> TaskDtoView {
        (self.id@, self.name@, self.status@, self.dependencies@.map_values(|d: String| d@))
    }
}

fn pipeline_dto(id: &str, name: &str, status: &str, progress: &str) -> (r: PipelineDto)
    ensures
        r@ == (id@, name@, status@, progress@),
{
    PipelineDto {
        id: id.to_owned(),
        name: name.to_owned(),
        status: status.to_owned(),
        progress: progress.to_owned(),
    }
}

/// The pipelines the dashboard lists.
pub open spec fn listed_pipelines() -> Seq<PipelineDtoView> {
    seq![
        ("data-processing"@, "Data Processing Pipeline"@, "Running"@, "90%"@),
        ("web-crawler"@, "Web Crawler Pipeline"@, "Completed"@, "100%"@),
        ("etl-pipeline"@, "ETL Pipeline"@, "Failed"@, "65%"@),
    ]
}

/// The pipelines the dashboard lists: a fixed sample of three.
pub fn list_pipelines() -> (r: Vec<PipelineDto>)
    ensures
        r@.map_values(|p: PipelineDto| p@) == listed_pipelines(),
{
    let mut r: Vec<PipelineDto> = Vec::new();
    r.push(pipeline_dto("data-processing", "Data Processing Pipeline", "Running", "90%"));
    r.push(pipeline_dto("web-crawler", "Web Crawler Pipeline", "Completed", "100%"));
    r.push(pipeline_dto("etl-pipeline", "ETL Pipeline", "Failed", "65%"));
    assert(r@.map_values(|p: PipelineDto| p@) =~= listed_pipelines());
    r
}

fn task_dto(id: &str, name: &str, status: &str, dependency: Option<&str>) -> (r: TaskDto)
    ensures
        r@ == (id@, name@, status@, match dependency {
            Some(d) => seq![d@],
            None => Seq::<Seq<char>>::empty(),
        }),
{
    let mut dependencies: Vec<String> = Vec::new();
    match dependency {
        Some(d) => dependencies.push(d.to_owned()),
        None => {},
    }
    let r = TaskDto {
        id: id.to_owned(),
        name: name.to_owned(),
        status: status.to_owned(),
        dependencies,
    };
    assert(r@.3 =~= match dependency {
        Some(d) => seq![d@],
        None => Seq::<Seq<char>>::empty(),
    });
    r
}

/// The tasks the dashboard shows for a pipeline.
pub open spec fn detailed_tasks() -> Seq<TaskDtoView> {
    seq![
        ("extract"@, "Extract Data"@, "Completed"@, Seq::empty()),
        ("transform"@, "Transform Data"@, "Running"@, seq!["extract"@]),
        ("load"@, "Load Data"@, "Pending"@, seq!["transform"@]),
        ("validate"@, "Validate Data"@, "Pending"@, seq!["load"@]),
    ]
}

/// The details the dashboard shows for pipeline `id`: a summary named
/// "Pipeline " followed by the id, and a fixed sample of four tasks.
pub fn get_pipeline_details(id: &str) -> (r: (PipelineDto, Vec<TaskDto>))
    ensures
        r.0@ == (id@, "Pipeline "@ + id@, "Running"@, "90%"@),
        r.1@.map_values(|t: TaskDto| t@) == detailed_tasks(),
{
    let mut name = "Pipeline ".to_owned();
    name.append(id);
    let pipeline = PipelineDto {
        id: id.to_owned(),
        name,
        status: "Running".to_owned(),
        progress: "90%".to_owned(),
    };
    let mut tasks: Vec<TaskDto> = Vec::new();
    tasks.push(task_dto("extract", "Extract Data", "Completed", None));
    tasks.push(task_dto("transform", "Transform Data", "Running", Some("extract")));
    tasks.push(task_dto("load", "Load Data", "Pending", Some("transform")));
    tasks.push(task_dto("validate", "Validate Data", "Pending", Some("load")));
    assert(tasks@.map_values(|t: TaskDto| t@) =~= detailed_tasks());
    (pipeline, tasks)
}

/// The metrics text the dashboard shows: empty.
pub fn get_metrics() -> (r: String)
    ensures
        r@ == Seq::<char>::empty(),
{
    String::new()
}

} // verus!
